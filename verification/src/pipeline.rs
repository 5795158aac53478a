//! One trial of the channel: random cells out, demodulated cells back, and
//! what survived of them.

use vstd::arithmetic::power2::pow2;
use vstd::prelude::*;

use crate::bits::{
    count_ones, lemma_popcount_bits, lemma_popcount_bound, lemma_single_one, popcount,
};
use crate::image::Image;
use crate::rng::{below, output, state_after, Rng};
use crate::sums::{lemma_sum_range_congruent, lemma_sum_single, lemma_sum_zero, sum_range};

verus! {

/// A fraction with a positive denominator.
#[derive(Clone, Copy, Debug, PartialEq, Eq, Structural)]
pub struct Ratio {
    pub num: usize,
    pub den: usize,
}

/// How many cells and bits of a trial came back wrong.
#[derive(Clone, Copy, Debug)]
pub struct TrialResult {
    pub wrong_cells: usize,
    pub total_cells: usize,
    pub wrong_bits: u32,
    pub total_bits: u32,
}

impl Default for TrialResult {
    fn default() -> (r: Self)
        ensures
            r.wrong_cells == 0,
            r.total_cells == 0,
            r.wrong_bits == 0,
            r.total_bits == 0,
    {
        TrialResult { wrong_cells: 0, total_cells: 0, wrong_bits: 0, total_bits: 0 }
    }
}

impl TrialResult {
    /// Symbol error rate: the share of wrong cells, zero without cells.
    pub fn ser(&self) -> (r: Ratio)
        ensures
            self.total_cells == 0 ==> r == (Ratio { num: 0, den: 1 }),
            self.total_cells > 0 ==> r == (Ratio { num: self.wrong_cells, den: self.total_cells }),
            r.den > 0,
    {
        if self.total_cells == 0 {
            Ratio { num: 0, den: 1 }
        } else {
            Ratio { num: self.wrong_cells, den: self.total_cells }
        }
    }

    /// Bit error rate: the share of wrong bits, zero without bits.
    pub fn ber(&self) -> (r: Ratio)
        ensures
            self.total_bits == 0 ==> r == (Ratio { num: 0, den: 1 }),
            self.total_bits > 0 ==> r.num == self.wrong_bits && r.den == self.total_bits,
            r.den > 0,
    {
        if self.total_bits == 0 {
            Ratio { num: 0, den: 1 }
        } else {
            Ratio { num: self.wrong_bits as usize, den: self.total_bits as usize }
        }
    }
}

/// Draws `n` cells, uniform over the `2^bpc` levels.
pub fn draw_cells(rng: &mut Rng, bpc: u32, n: usize) -> (cells: Vec<u8>)
    requires
        bpc < 32,
    ensures
        cells@.len() == n,
        forall|i: int|
            0 <= i < n ==> #[trigger] cells@[i] == below(
                state_after(old(rng)@, (i + 1) as nat),
                1u32 << bpc,
            ) as u8,
        final(rng)@ == state_after(old(rng)@, n as nat),
        bpc <= 8 ==> forall|i: int|
            0 <= i < n ==> #[trigger] cells@[i] == output(
                state_after(old(rng)@, (i + 1) as nat),
            ) as nat % pow2(bpc as nat),
{
    let levels: u32 = 1u32 << bpc;
    proof {
        lemma_single_one(bpc);
    }
    let mut cells: Vec<u8> = Vec::new();
    let mut i: usize = 0;
    while i < n
        invariant
            i <= n,
            levels == 1u32 << bpc,
            levels > 0,
            cells@.len() == i,
            forall|j: int|
                0 <= j < i ==> #[trigger] cells@[j] == below(
                    state_after(old(rng)@, (j + 1) as nat),
                    1u32 << bpc,
                ) as u8,
            rng@ == state_after(old(rng)@, i as nat),
        decreases n - i,
    {
        cells.push(rng.next_u32_below(levels) as u8);
        i = i + 1;
    }
    proof {
        vstd::arithmetic::power2::lemma2_to64();
        vstd::arithmetic::power2::lemma_pow2_pos(bpc as nat);
        if bpc < 8 {
            vstd::arithmetic::power2::lemma_pow2_strictly_increases(bpc as nat, 8);
        }
        if bpc <= 8 {
            vstd::bits::lemma_u32_shl_is_mul(1, bpc);
        }
    }
    cells
}

/// The number of cells that both sides hold.
pub open spec fn common(sent: Seq<u8>, got: Seq<u8>) -> nat {
    if sent.len() <= got.len() {
        sent.len()
    } else {
        got.len()
    }
}

/// The lowest `bpc` bits of a word.
pub open spec fn low_bits(x: u32, bpc: u32) -> u32 {
    x & (((1u32 << bpc) - 1) as u32)
}

/// Wrong bits of a cell: the places in which sent and received value differ,
/// among the lowest `bpc`.
pub open spec fn bit_distance(a: u8, b: u8, bpc: u32) -> int {
    popcount(low_bits((a ^ b) as u32, bpc) as nat) as int
}

/// Number of cells that differ.
pub open spec fn count_wrong(sent: Seq<u8>, got: Seq<u8>) -> int {
    sum_range(
        0,
        common(sent, got),
        |i: int|
            if sent[i] != got[i] {
                1
            } else {
                0
            },
    )
}

/// Number of bits that differ.
pub open spec fn count_wrong_bits(sent: Seq<u8>, got: Seq<u8>, bpc: u32) -> int {
    sum_range(0, common(sent, got), |i: int| bit_distance(sent[i], got[i], bpc))
}

/// A cell has at most `bpc` wrong bits, and none when it came back unchanged.
pub proof fn lemma_bit_distance(a: u8, b: u8, bpc: u32)
    requires
        bpc < 32,
    ensures
        0 <= bit_distance(a, b, bpc) <= bpc,
        a == b ==> bit_distance(a, b, bpc) == 0,
{
    let x = (a ^ b) as u32;
    let m = (1u32 << bpc) - 1;
    vstd::arithmetic::power2::lemma2_to64();
    vstd::arithmetic::power2::lemma_pow2_pos(bpc as nat);
    vstd::arithmetic::power2::lemma_pow2_strictly_increases(bpc as nat, 32);
    vstd::bits::lemma_u32_shl_is_mul(1, bpc);
    let y = low_bits(x, bpc);
    lemma_low_bits_small(x, bpc);
    lemma_popcount_bound(y as nat, bpc as nat);
    if a == b {
        let mask = m as u32;
        assert(a ^ a == 0 && 0u32 & mask == 0) by (bit_vector);
    }
}

/// Compares received cells with sent ones: wrong cells, wrong bits and all bits.
pub fn compare_cells(sent: &[u8], got: &[u8], bpc: u32) -> (r: (usize, u32, u32))
    requires
        bpc < 32,
        common(sent@, got@) * bpc <= u32::MAX,
    ensures
        r.0 == count_wrong(sent@, got@),
        r.1 == count_wrong_bits(sent@, got@, bpc),
        r.2 == common(sent@, got@) * bpc,
{
    proof {
        lemma_single_one(bpc);
    }
    let mask: u32 = (1u32 << bpc) - 1;
    let n: usize = if sent.len() <= got.len() { sent.len() } else { got.len() };
    let ghost f = |i: int|
        if sent@[i] != got@[i] {
            1int
        } else {
            0
        };
    let ghost g = |i: int| bit_distance(sent@[i], got@[i], bpc);
    let mut wrong_cells: usize = 0;
    let mut wrong_bits: u32 = 0;
    let mut total_bits: u32 = 0;
    let mut i: usize = 0;
    while i < n
        invariant
            bpc < 32,
            n == common(sent@, got@),
            n * bpc <= u32::MAX,
            mask == (1u32 << bpc) - 1,
            i <= n,
            f == (|i: int|
                if sent@[i] != got@[i] {
                    1int
                } else {
                    0
                }),
            g == (|i: int| bit_distance(sent@[i], got@[i], bpc)),
            wrong_cells == sum_range(0, i as nat, f),
            wrong_cells <= i,
            wrong_bits == sum_range(0, i as nat, g),
            wrong_bits <= i * bpc,
            total_bits == i * bpc,
        decreases n - i,
    {
        let a: u8 = sent[i];
        let b: u8 = got[i];
        proof {
            lemma_bit_distance(a, b, bpc);
            assert((i + 1) * bpc == i * bpc + bpc) by (nonlinear_arith);
            assert((i + 1) * bpc <= n * bpc) by (nonlinear_arith)
                requires
                    i + 1 <= n,
                    bpc >= 0,
            ;
        }
        if a != b {
            wrong_cells = wrong_cells + 1;
        }
        wrong_bits = wrong_bits + count_ones((a ^ b) as u32 & mask);
        total_bits = total_bits + bpc;
        i = i + 1;
    }
    (wrong_cells, wrong_bits, total_bits)
}

/// Scores the demodulated cells of a trial against the ones sent.
pub fn score_trial(sent: &[u8], got: &[u8], bpc: u32) -> (r: TrialResult)
    requires
        bpc < 32,
        common(sent@, got@) * bpc <= u32::MAX,
    ensures
        r.total_cells == sent@.len(),
        r.wrong_cells == count_wrong(sent@, got@),
        r.wrong_bits == count_wrong_bits(sent@, got@, bpc),
        r.total_bits == common(sent@, got@) * bpc,
{
    let (wrong_cells, wrong_bits, total_bits) = compare_cells(sent, got, bpc);
    TrialResult { wrong_cells, total_cells: sent.len(), wrong_bits, total_bits }
}

/// Turns drive levels into light through one table per channel. Pixels past
/// the end of `drive` stay `black`; what is past the image is not read.
pub fn drive_to_linear<S: Copy>(
    drive: &[[u8; 3]],
    w: usize,
    h: usize,
    lut: &[[S; 256]; 3],
    black: [S; 3],
) -> (img: Image<[S; 3]>)
    requires
        w * h <= usize::MAX,
    ensures
        img.wf(),
        img.w == w,
        img.h == h,
        forall|c: int|
            0 <= c < w * h && c < drive@.len() ==> #[trigger] img.data@[c]@ == seq![
                lut@[0]@[drive@[c]@[0] as int],
                lut@[1]@[drive@[c]@[1] as int],
                lut@[2]@[drive@[c]@[2] as int],
            ],
        forall|c: int| drive@.len() <= c < w * h ==> #[trigger] img.data@[c] == black,
        forall|c: int, k: int|
            0 <= c < w * h && c < drive@.len() && 0 <= k < 3 ==> #[trigger] img.data@[c]@[k]
                == lut@[k]@[drive@[c]@[k] as int],
{
    let n: usize = w * h;
    let mut data: Vec<[S; 3]> = Vec::new();
    let mut i: usize = 0;
    while i < n
        invariant
            n == w * h,
            i <= n,
            data@.len() == i,
            forall|c: int|
                0 <= c < i && c < drive@.len() ==> #[trigger] data@[c]@ == seq![
                    lut@[0]@[drive@[c]@[0] as int],
                    lut@[1]@[drive@[c]@[1] as int],
                    lut@[2]@[drive@[c]@[2] as int],
                ],
            forall|c: int| drive@.len() <= c < i ==> #[trigger] data@[c] == black,
        decreases n - i,
    {
        if i < drive.len() {
            let d: [u8; 3] = drive[i];
            let pixel: [S; 3] = [
                lut[0][d[0] as usize],
                lut[1][d[1] as usize],
                lut[2][d[2] as usize],
            ];
            assert(pixel@ =~= seq![
                lut@[0]@[d@[0] as int],
                lut@[1]@[d@[1] as int],
                lut@[2]@[d@[2] as int],
            ]);
            data.push(pixel);
        } else {
            data.push(black);
        }
        i = i + 1;
    }
    Image { w, h, data }
}

/// A perfect channel makes no errors, and wrong bits are never more than all
/// the bits of wrong cells.
pub proof fn lemma_error_counts(sent: Seq<u8>, got: Seq<u8>, bpc: u32)
    requires
        bpc < 32,
    ensures
        sent == got ==> count_wrong(sent, got) == 0 && count_wrong_bits(sent, got, bpc) == 0,
        0 <= count_wrong_bits(sent, got, bpc) <= bpc * count_wrong(sent, got),
        0 <= count_wrong(sent, got) <= common(sent, got),
{
    let n = common(sent, got);
    let f = |i: int|
        if sent[i] != got[i] {
            1int
        } else {
            0
        };
    let g = |i: int| bit_distance(sent[i], got[i], bpc);
    lemma_error_prefix(sent, got, bpc, n);
    if sent == got {
        lemma_sum_zero(0, n, f);
    }
}

/// The bounds of the error counts, prefix by prefix.
proof fn lemma_error_prefix(sent: Seq<u8>, got: Seq<u8>, bpc: u32, n: nat)
    requires
        bpc < 32,
    ensures
        ({
            let f = |i: int|
                if sent[i] != got[i] {
                    1int
                } else {
                    0
                };
            let g = |i: int| bit_distance(sent[i], got[i], bpc);
            &&& 0 <= sum_range(0, n, f) <= n
            &&& 0 <= sum_range(0, n, g) <= bpc * sum_range(0, n, f)
        }),
    decreases n,
{
    let f = |i: int|
        if sent[i] != got[i] {
            1int
        } else {
            0
        };
    if n > 0 {
        lemma_error_prefix(sent, got, bpc, (n - 1) as nat);
        lemma_bit_distance(sent[n - 1], got[n - 1], bpc);
        let s = sum_range(0, (n - 1) as nat, f);
        assert(bpc * (s + 1) == bpc * s + bpc) by (nonlinear_arith);
    } else {
        assert(bpc * 0 == 0) by (nonlinear_arith);
    }
}

/// Masked words are small.
proof fn lemma_low_bits_small(x: u32, bpc: u32)
    requires
        bpc < 32,
    ensures
        low_bits(x, bpc) < 1u32 << bpc,
{
    assert(x & (((1u32 << bpc) - 1) as u32) < 1u32 << bpc) by (bit_vector)
        requires
            bpc < 32,
    ;
}

/// The wrong bits of a cell, counted place by place: a place below `bpc` is
/// wrong exactly when the bits of the sent and of the received value differ
/// there, and no other place counts.
pub proof fn lemma_wrong_bits_by_place(a: u8, b: u8, bpc: u32)
    requires
        bpc < 32,
    ensures
        bit_distance(a, b, bpc) == sum_range(
            0,
            bpc as nat,
            |k: int|
                if (a as u32 >> (k as u32)) & 1 != (b as u32 >> (k as u32)) & 1 {
                    1
                } else {
                    0
                },
        ),
{
    let y = low_bits((a ^ b) as u32, bpc);
    let f = |k: int| ((y >> (k as u32)) & 1) as int;
    let g = |k: int|
        if (a as u32 >> (k as u32)) & 1 != (b as u32 >> (k as u32)) & 1 {
            1int
        } else {
            0
        };
    lemma_low_bits_small((a ^ b) as u32, bpc);
    lemma_popcount_bits(y, bpc);
    assert forall|k: int| 0 <= k < 0 + bpc implies #[trigger] f(k) == g(k) by {
        let j = k as u32;
        assert(((((a ^ b) as u32) & (((1u32 << bpc) - 1) as u32)) >> j) & 1 == if (a as u32 >> j)
            & 1 != (b as u32 >> j) & 1 {
            1u32
        } else {
            0
        }) by (bit_vector)
            requires
                j < bpc < 32,
        ;
    }
    lemma_sum_range_congruent(0, bpc as nat, f, g);
}

/// Values that differ in exactly one of the lowest `bpc` places are one wrong
/// bit apart.
pub proof fn lemma_one_wrong_place(a: u8, b: u8, bpc: u32, place: int)
    requires
        bpc < 32,
        0 <= place < bpc,
        forall|k: int|
            0 <= k < bpc ==> ((#[trigger] (a as u32 >> (k as u32))) & 1 != (b as u32 >> (k as u32))
                & 1 <==> k == place),
    ensures
        bit_distance(a, b, bpc) == 1,
{
    let g = |k: int|
        if (a as u32 >> (k as u32)) & 1 != (b as u32 >> (k as u32)) & 1 {
            1int
        } else {
            0
        };
    lemma_wrong_bits_by_place(a, b, bpc);
    lemma_sum_single(0, bpc as nat, g, place);
}

/// Cells are counted one by one: one more cell on both sides adds one wrong
/// cell if the values differ, and the bits in which they do.
pub proof fn lemma_one_more_cell(sent: Seq<u8>, got: Seq<u8>, a: u8, b: u8, bpc: u32)
    requires
        sent.len() == got.len(),
    ensures
        count_wrong(sent.push(a), got.push(b)) == count_wrong(sent, got) + if a == b {
            0int
        } else {
            1
        },
        count_wrong_bits(sent.push(a), got.push(b), bpc) == count_wrong_bits(sent, got, bpc)
            + bit_distance(a, b, bpc),
        count_wrong(Seq::empty(), Seq::empty()) == 0,
        count_wrong_bits(Seq::empty(), Seq::empty(), bpc) == 0,
{
    let n = sent.len();
    let f = |i: int|
        if sent[i] != got[i] {
            1int
        } else {
            0
        };
    let f1 = |i: int|
        if sent.push(a)[i] != got.push(b)[i] {
            1int
        } else {
            0
        };
    lemma_sum_range_congruent(0, n, f, f1);
    let g = |i: int| bit_distance(sent[i], got[i], bpc);
    let g1 = |i: int| bit_distance(sent.push(a)[i], got.push(b)[i], bpc);
    lemma_sum_range_congruent(0, n, g, g1);
}

/// Cells that only one side holds are not compared.
pub proof fn lemma_excess_cells_ignored(sent: Seq<u8>, got: Seq<u8>, extra: Seq<u8>, bpc: u32)
    requires
        sent.len() == got.len(),
    ensures
        count_wrong(sent + extra, got) == count_wrong(sent, got),
        count_wrong(sent, got + extra) == count_wrong(sent, got),
        count_wrong_bits(sent + extra, got, bpc) == count_wrong_bits(sent, got, bpc),
        count_wrong_bits(sent, got + extra, bpc) == count_wrong_bits(sent, got, bpc),
        common(sent + extra, got) == sent.len(),
        common(sent, got + extra) == sent.len(),
{
    let n = sent.len();
    let f = |i: int|
        if sent[i] != got[i] {
            1int
        } else {
            0
        };
    let g = |i: int| bit_distance(sent[i], got[i], bpc);
    lemma_sum_range_congruent(
        0,
        n,
        f,
        |i: int|
            if (sent + extra)[i] != got[i] {
                1int
            } else {
                0
            },
    );
    lemma_sum_range_congruent(
        0,
        n,
        f,
        |i: int|
            if sent[i] != (got + extra)[i] {
                1int
            } else {
                0
            },
    );
    lemma_sum_range_congruent(0, n, g, |i: int| bit_distance((sent + extra)[i], got[i], bpc));
    lemma_sum_range_congruent(0, n, g, |i: int| bit_distance(sent[i], (got + extra)[i], bpc));
}

} // verus!
