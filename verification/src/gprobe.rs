//! The bench that compares cells with global Hermite-Gauss modes: its
//! geometry, its Gray-coded levels, and which cells and modes carry data.

use vstd::prelude::*;

use crate::bits::{count_ones_long, lemma_popcount_zero, popcount};
use crate::grid::lemma_cell_unique;
use crate::rng::{below, lemma_steps_add, output, state_after, xorshift, Rng};
use crate::sums::{lemma_sum_zero, sum_range};

verus! {

/// Cells along one side.
pub const CELLS: usize = 24;

/// Camera pixels per cell.
pub const PX_CELL: usize = 12;

/// Side of the aperture in camera pixels.
pub const APER: usize = 288;

/// Grey margin around the aperture.
pub const PAD: usize = 24;

/// Highest order of a mode along one axis.
pub const MMAX: usize = 23;

/// Modes: as many as there are cells.
pub const NMODES: usize = 576;

/// Side of a receiver bin in pixels.
pub const RX_BIN: usize = 4;

/// Receiver bins along one side.
pub const RXN: usize = 72;

/// The Gray code of a level.
pub open spec fn gray(a: u64) -> u64 {
    a ^ (a >> 1)
}

/// Bits in which the Gray codes of two levels differ.
pub open spec fn gray_distance(a: u64, b: u64) -> nat {
    popcount((gray(a) ^ gray(b)) as nat)
}

/// Wrong bits when level `a` is taken for level `b`.
pub fn pam_bit_errors(a: usize, b: usize) -> (n: usize)
    ensures
        n == gray_distance(a as u64, b as u64),
{
    let x: u64 = a as u64;
    let y: u64 = b as u64;
    count_ones_long((x ^ (x >> 1)) ^ (y ^ (y >> 1))) as usize
}

/// No bit is wrong exactly when the level is right, and the count does not
/// depend on which level was sent.
pub proof fn lemma_gray_distance(a: u64, b: u64)
    ensures
        gray_distance(a, b) == 0 <==> a == b,
        gray_distance(a, b) == gray_distance(b, a),
{
    let x = gray(a) ^ gray(b);
    lemma_popcount_zero(x as nat);
    assert(((a ^ (a >> 1)) ^ (b ^ (b >> 1)) == 0 <==> a == b) && (a ^ (a >> 1)) ^ (b ^ (b >> 1)) == (
    b ^ (b >> 1)) ^ (a ^ (a >> 1))) by (bit_vector);
}

/// Taking a level for its neighbour costs exactly one bit.
pub proof fn lemma_gray_neighbours(a: u64)
    requires
        a < u64::MAX,
    ensures
        gray_distance(a, (a + 1) as u64) == 1,
    decreases a,
{
    let b = (a + 1) as u64;
    let x = gray(a) ^ gray(b);
    if a % 2 == 0 {
        assert((a ^ (a >> 1)) ^ (b ^ (b >> 1)) == 1) by (bit_vector)
            requires
                a % 2 == 0,
                b == a + 1,
        ;
        reveal_with_fuel(popcount, 3);
    } else {
        let h = a / 2;
        let k = (h + 1) as u64;
        assert(((a ^ (a >> 1)) ^ (b ^ (b >> 1))) == 2 * ((h ^ (h >> 1)) ^ (k ^ (k >> 1))))
            by (bit_vector)
            requires
                a % 2 == 1,
                b == a + 1,
                h == a / 2,
                k == h + 1,
        ;
        lemma_gray_neighbours(h);
        let half = gray(h) ^ gray(k);
        assert(popcount(x as nat) == popcount(half as nat)) by {
            assert(x == 2 * half);
            if x > 0 {
                assert(x as nat / 2 == half as nat);
            }
        }
    }
}

/// Bits that one axis of `lv` levels carries.
pub fn bits_per_axis(lv: usize) -> (bits: usize)
    requires
        lv >= 1,
    ensures
        vstd::arithmetic::power2::pow2(bits as nat) <= lv,
        lv < vstd::arithmetic::power2::pow2(bits as nat + 1),
        bits < 64,
{
    let mut bits: usize = 0;
    let mut rest: usize = lv;
    proof {
        vstd::arithmetic::power2::lemma2_to64();
        assert(1 * lv == lv);
    }
    while rest > 1
        invariant
            rest >= 1,
            rest * vstd::arithmetic::power2::pow2(bits as nat) <= lv,
            lv < (rest + 1) * vstd::arithmetic::power2::pow2(bits as nat),
            bits < 64,
            vstd::arithmetic::power2::pow2(64) > usize::MAX,
        decreases rest,
    {
        let ghost p = vstd::arithmetic::power2::pow2(bits as nat) as int;
        let ghost h = rest as int / 2;
        proof {
            vstd::arithmetic::power2::lemma_pow2_unfold(bits as nat + 1);
            vstd::arithmetic::power2::lemma_pow2_pos(bits as nat);
            assert(h * (2 * p) <= rest * p && (rest + 1) * p <= (h + 1) * (2 * p)) by (nonlinear_arith)
                requires
                    h == rest as int / 2,
                    p >= 0,
            ;
            if bits == 63 {
                assert(h * (2 * p) >= 2 * p) by (nonlinear_arith)
                    requires
                        h >= 1,
                        p >= 0,
                ;
            }
        }
        rest = rest / 2;
        bits = bits + 1;
    }
    assert((1 + 1) * vstd::arithmetic::power2::pow2(bits as nat)
        == vstd::arithmetic::power2::pow2(bits as nat + 1)) by {
        vstd::arithmetic::power2::lemma_pow2_unfold(bits as nat + 1);
    }
    bits
}

/// The cell belongs to the lattice of pilots, if there is one.
pub open spec fn on_lattice(x: int, y: int, period: Option<usize>) -> bool {
    match period {
        Some(p) => x % (p as int) == 0 && y % (p as int) == 0,
        None => false,
    }
}

/// Whether a cell is a pilot: one of a lattice of the given period.
pub fn is_pilot(cx: usize, cy: usize, period: Option<usize>) -> (r: bool)
    requires
        period matches Some(p) ==> p > 0,
    ensures
        r == on_lattice(cx as int, cy as int, period),
{
    match period {
        Some(p) => cx % p == 0 && cy % p == 0,
        None => false,
    }
}

/// Which cells of the symbol are pilots, row by row.
pub fn pilot_map(period: Option<usize>) -> (map: Vec<bool>)
    requires
        period matches Some(p) ==> p > 0,
    ensures
        map@.len() == CELLS * CELLS,
        forall|c: int|
            0 <= c < CELLS * CELLS ==> #[trigger] map@[c] == on_lattice(
                c % (CELLS as int),
                c / (CELLS as int),
                period,
            ),
{
    let mut map: Vec<bool> = Vec::new();
    let mut i: usize = 0;
    while i < CELLS * CELLS
        invariant
            period matches Some(p) ==> p > 0,
            i <= CELLS * CELLS,
            map@.len() == i,
            forall|c: int|
                0 <= c < i ==> #[trigger] map@[c] == on_lattice(
                    c % (CELLS as int),
                    c / (CELLS as int),
                    period,
                ),
        decreases CELLS * CELLS - i,
    {
        map.push(is_pilot(i % CELLS, i / CELLS, period));
        i = i + 1;
    }
    map
}

/// How many of the first `n` places carry data.
pub open spec fn data_before(skip: Seq<bool>, n: nat) -> nat
    decreases n,
{
    if n == 0 {
        0
    } else if skip[n - 1] {
        data_before(skip, (n - 1) as nat)
    } else {
        data_before(skip, (n - 1) as nat) + 1
    }
}

/// The places that carry data, in order.
pub open spec fn data_places(skip: Seq<bool>, n: nat) -> Seq<usize>
    decreases n,
{
    if n == 0 {
        Seq::empty()
    } else if skip[n - 1] {
        data_places(skip, (n - 1) as nat)
    } else {
        data_places(skip, (n - 1) as nat).push((n - 1) as usize)
    }
}

/// The places that carry data: all that are not skipped.
pub fn payload_places(skip: &Vec<bool>) -> (out: Vec<usize>)
    ensures
        out@ == data_places(skip@, skip@.len()),
        out@.len() == data_before(skip@, skip@.len()),
{
    let mut out: Vec<usize> = Vec::new();
    let mut i: usize = 0;
    assert(out@ =~= Seq::<usize>::empty());
    while i < skip.len()
        invariant
            i <= skip@.len(),
            out@ == data_places(skip@, i as nat),
            out@.len() == data_before(skip@, i as nat),
        decreases skip@.len() - i,
    {
        if !skip[i] {
            out.push(i);
        }
        i = i + 1;
    }
    out
}

/// Each data place is listed once, in ascending order, and nothing else is.
pub proof fn lemma_data_places(skip: Seq<bool>, n: nat)
    requires
        n <= skip.len(),
        n <= usize::MAX,
    ensures
        forall|i: int, j: int|
            0 <= i < j < data_places(skip, n).len() ==> #[trigger] data_places(skip, n)[i]
                < #[trigger] data_places(skip, n)[j],
        forall|i: int|
            0 <= i < data_places(skip, n).len() ==> (#[trigger] data_places(skip, n)[i]) < n
                && !skip[data_places(skip, n)[i] as int],
        forall|p: usize| p < n && !skip[p as int] ==> #[trigger] data_places(skip, n).contains(p),
    decreases n,
{
    if n > 0 {
        let m = (n - 1) as nat;
        lemma_data_places(skip, m);
        let before = data_places(skip, m);
        let after = data_places(skip, n);
        assert forall|p: usize| p < n && !skip[p as int] implies #[trigger] after.contains(p) by {
            if p < m {
                assert(before.contains(p));
                let i = choose|i: int| 0 <= i < before.len() && before[i] == p;
                assert(after[i] == p);
            } else {
                assert(after[after.len() - 1] == p);
            }
        }
    }
}

/// The pair of levels drawn for the place with `k` data places before it.
pub open spec fn drawn_pair(s: u64, lv: u32, k: nat) -> (usize, usize) {
    (below(state_after(s, 2 * k + 1), lv) as usize, below(state_after(s, 2 * k + 2), lv) as usize)
}

/// Draws a pair of levels for each place that carries data.
pub fn draw_pairs(skip: &Vec<bool>, lv: u32, rng: &mut Rng) -> (out: Vec<Option<(usize, usize)>>)
    requires
        lv > 0,
    ensures
        out@.len() == skip@.len(),
        forall|i: int|
            0 <= i < out@.len() ==> #[trigger] out@[i] == if skip@[i] {
                None
            } else {
                Some(drawn_pair(old(rng)@, lv, data_before(skip@, i as nat)))
            },
        final(rng)@ == state_after(old(rng)@, 2 * data_before(skip@, skip@.len())),
{
    let mut out: Vec<Option<(usize, usize)>> = Vec::new();
    let mut i: usize = 0;
    while i < skip.len()
        invariant
            lv > 0,
            i <= skip@.len(),
            out@.len() == i,
            rng@ == state_after(old(rng)@, 2 * data_before(skip@, i as nat)),
            forall|j: int|
                0 <= j < i ==> #[trigger] out@[j] == if skip@[j] {
                    None
                } else {
                    Some(drawn_pair(old(rng)@, lv, data_before(skip@, j as nat)))
                },
        decreases skip@.len() - i,
    {
        if skip[i] {
            out.push(None);
        } else {
            let re: usize = rng.next_u32_below(lv) as usize;
            let im: usize = rng.next_u32_below(lv) as usize;
            out.push(Some((re, im)));
            proof {
                let k = data_before(skip@, i as nat);
                reveal_with_fuel(state_after, 3);
                assert(data_before(skip@, (i + 1) as nat) == k + 1);
                assert((2 * k + 2 - 1) as nat == 2 * k + 1);
                assert(2 * (k + 1) == 2 * k + 2);
            }
        }
        i = i + 1;
    }
    out
}

/// Index of the mode of order `mx` along one axis and `my` along the other.
pub fn midx(mx: usize, my: usize) -> (k: usize)
    requires
        mx * (MMAX + 1) + my <= usize::MAX,
    ensures
        k == mx * (MMAX + 1) + my,
        my < 24 ==> k as int / 24 == mx && k as int % 24 == my,
{
    proof {
        if my < 24 {
            lemma_cell_unique(24, my as int, mx as int);
        }
    }
    mx * (MMAX + 1) + my
}

/// Total order of mode `k`.
pub open spec fn mode_order(k: int) -> int {
    k / 24 + k % 24
}

/// Total order of a mode.
pub fn morder(k: usize) -> (o: usize)
    ensures
        o == mode_order(k as int),
{
    k / (MMAX + 1) + k % (MMAX + 1)
}

/// The index of a mode gives its order back, and lies below the number of modes.
pub proof fn lemma_mode_index(mx: int, my: int)
    requires
        0 <= mx <= MMAX,
        0 <= my <= MMAX,
    ensures
        0 <= mx * (MMAX + 1) + my < NMODES,
        mode_order(mx * (MMAX + 1) + my) == mx + my,
        (mx * (MMAX + 1) + my) / 24 == mx,
        (mx * (MMAX + 1) + my) % 24 == my,
{
}

/// The mode is one of the six of order zero to two that carry no data.
pub open spec fn is_calibration(k: int) -> bool {
    k == 0 || k == 24 || k == 1 || k == 25 || k == 48 || k == 2
}

/// The calibration modes, by their orders along the two axes.
pub open spec fn cal_modes() -> Seq<(usize, usize)> {
    seq![
        (0usize, 0usize),
        (1usize, 0usize),
        (0usize, 1usize),
        (1usize, 1usize),
        (2usize, 0usize),
        (0usize, 2usize),
    ]
}

/// The calibration modes, in the order in which they are fitted.
pub fn calibration_modes() -> (modes: [(usize, usize); 6])
    ensures
        modes@ == cal_modes(),
{
    let modes: [(usize, usize); 6] = [(0, 0), (1, 0), (0, 1), (1, 1), (2, 0), (0, 2)];
    assert(modes@ =~= cal_modes());
    modes
}

/// Which modes are reserved for calibration.
pub fn calibration_map() -> (map: Vec<bool>)
    ensures
        map@.len() == NMODES,
        forall|k: int| 0 <= k < NMODES ==> #[trigger] map@[k] == is_calibration(k),
{
    let modes: [(usize, usize); 6] = calibration_modes();
    let mut map: Vec<bool> = vec![false; NMODES];
    let mut i: usize = 0;
    while i < 6
        invariant
            i <= 6,
            modes@ == cal_modes(),
            map@.len() == NMODES,
            forall|k: int|
                0 <= k < NMODES ==> #[trigger] map@[k] == (i > 0 && k == 0 || i > 1 && k == 24 || i
                    > 2 && k == 1 || i > 3 && k == 25 || i > 4 && k == 48 || i > 5 && k == 2),
        decreases 6 - i,
    {
        let (mx, my) = modes[i];
        map.set(midx(mx, my), true);
        i = i + 1;
    }
    map
}

/// The calibration modes are those of order at most two.
pub proof fn lemma_calibration_orders(k: int)
    requires
        0 <= k < NMODES,
    ensures
        is_calibration(k) <==> mode_order(k) <= 2,
{
}

/// Mode `k` carries data and its order lies within `r` of `o`.
pub open spec fn near_order(is_cal: Seq<bool>, o: int, r: int, k: int) -> bool {
    !is_cal[k] && mode_order(k) <= o + r && o <= mode_order(k) + r
}

/// The data modes with orders within `r` of `o`, among the first `n` modes.
pub open spec fn modes_near(is_cal: Seq<bool>, o: int, r: int, n: nat) -> Seq<usize>
    decreases n,
{
    if n == 0 {
        Seq::empty()
    } else if near_order(is_cal, o, r, n - 1) {
        modes_near(is_cal, o, r, (n - 1) as nat).push((n - 1) as usize)
    } else {
        modes_near(is_cal, o, r, (n - 1) as nat)
    }
}

/// How far from order `o` modes are pooled: the smallest reach, at most
/// three, that gathers eight of them.
pub open spec fn pool_reach(is_cal: Seq<bool>, o: int) -> int {
    if modes_near(is_cal, o, 0, is_cal.len()).len() >= 8 {
        0
    } else if modes_near(is_cal, o, 1, is_cal.len()).len() >= 8 {
        1
    } else if modes_near(is_cal, o, 2, is_cal.len()).len() >= 8 {
        2
    } else {
        3
    }
}

/// The data modes with orders within `r` of `o`.
fn gather_modes(is_cal: &Vec<bool>, o: usize, r: usize) -> (out: Vec<usize>)
    requires
        o + r <= usize::MAX,
        is_cal@.len() + r + 24 <= usize::MAX,
    ensures
        out@ == modes_near(is_cal@, o as int, r as int, is_cal@.len()),
{
    let mut out: Vec<usize> = Vec::new();
    let mut k: usize = 0;
    assert(out@ =~= Seq::<usize>::empty());
    while k < is_cal.len()
        invariant
            o + r <= usize::MAX,
            is_cal@.len() + r + 24 <= usize::MAX,
            k <= is_cal@.len(),
            out@ == modes_near(is_cal@, o as int, r as int, k as nat),
        decreases is_cal@.len() - k,
    {
        let m: usize = morder(k);
        if !is_cal[k] && m <= o + r && o <= m + r {
            out.push(k);
        }
        k = k + 1;
    }
    out
}

/// The modes over which the gain of order `o` is estimated. High and low
/// orders have few modes, so neighbouring orders are pooled.
pub fn order_pool(is_cal: &Vec<bool>, o: usize) -> (out: Vec<usize>)
    requires
        o + 3 <= usize::MAX,
        is_cal@.len() + 27 <= usize::MAX,
    ensures
        out@ == modes_near(
            is_cal@,
            o as int,
            pool_reach(is_cal@, o as int),
            is_cal@.len(),
        ),
{
    let mut r: usize = 0;
    let mut out: Vec<usize> = gather_modes(is_cal, o, 0);
    while r < 3 && out.len() < 8
        invariant
            r <= 3,
            o + 3 <= usize::MAX,
            is_cal@.len() + 27 <= usize::MAX,
            out@ == modes_near(is_cal@, o as int, r as int, is_cal@.len()),
            r > 0 ==> modes_near(is_cal@, o as int, 0, is_cal@.len()).len() < 8,
            r > 1 ==> modes_near(is_cal@, o as int, 1, is_cal@.len()).len() < 8,
            r > 2 ==> modes_near(is_cal@, o as int, 2, is_cal@.len()).len() < 8,
        decreases 3 - r,
    {
        r = r + 1;
        out = gather_modes(is_cal, o, r);
    }
    out
}

/// How the illumination varies over the symbol.
#[derive(Clone, Copy, Debug, PartialEq, Eq, Structural)]
pub enum FieldMode {
    /// It does not.
    Uniform,
    /// By a ramp that all channels share.
    Achromatic,
    /// By the ramp and a difference between the channels.
    Chromatic,
}

impl FieldMode {
    /// Caption in the tables.
    pub fn label(self) -> (s: &'static str)
        ensures
            s@ == match self {
                FieldMode::Uniform => "нет"@,
                FieldMode::Achromatic => "ахром 0.62→0.86"@,
                FieldMode::Chromatic => "ахром + хром 6%"@,
            },
    {
        match self {
            FieldMode::Uniform => "нет",
            FieldMode::Achromatic => "ахром 0.62→0.86",
            FieldMode::Chromatic => "ахром + хром 6%",
        }
    }
}

/// Which model of the illumination a receiver removes.
#[derive(Clone, Copy, Debug, PartialEq, Eq, Structural)]
pub enum FieldFit {
    /// None.
    Flat,
    /// The local mean over cells up to the given distance.
    Local(usize),
    /// A plane.
    Affine,
    /// A quadric.
    Quad,
}

impl FieldFit {
    /// Terms of the polynomial that is fitted.
    pub fn terms(self) -> (n: usize)
        ensures
            n == match self {
                FieldFit::Flat => 0usize,
                FieldFit::Local(_) => 0,
                FieldFit::Affine => 3,
                FieldFit::Quad => 6,
            },
    {
        match self {
            FieldFit::Flat => 0,
            FieldFit::Local(_) => 0,
            FieldFit::Affine => 3,
            FieldFit::Quad => 6,
        }
    }
}

/// The place lies between the first and the last of a window.
pub open spec fn in_window(window: (usize, usize), j: int) -> bool {
    window.0 <= j <= window.1
}

/// The cells within `k` of cell `c` in a line of `n`: the first and the last.
pub fn local_window(c: usize, k: usize, n: usize) -> (r: (usize, usize))
    requires
        c < n,
        c + k <= usize::MAX,
    ensures
        r.0 == if c > k {
            c - k
        } else {
            0
        },
        r.1 == if c + k < n {
            c + k
        } else {
            n - 1
        },
        r.0 <= c <= r.1 < n,
        forall|j: int|
            0 <= j < n ==> (#[trigger] in_window(r, j) <==> -(k as int) <= j - c <= k),
{
    let lo: usize = c.saturating_sub(k);
    let hi: usize = if c + k < n - 1 { c + k } else { n - 1 };
    (lo, hi)
}

/// First pixel of the averaging window of `win` pixels in the middle of bin `b`.
pub fn window_start(b: usize, bin: usize, win: usize) -> (x: usize)
    requires
        win <= bin,
        (b + 1) * bin <= usize::MAX,
    ensures
        x == b * bin + (bin - win) / 2,
        b * bin <= x,
        x + win <= (b + 1) * bin,
        0 <= ((b + 1) * bin - (x + win)) - (x - b * bin) <= 1,
{
    assert((b + 1) * bin == b * bin + bin) by (nonlinear_arith);
    b * bin + (bin - win) / 2
}

/// Bits delivered: `bpa` for every axis that is good enough.
pub fn delivered_bits(good: &[bool], bpa: usize) -> (n: usize)
    requires
        good@.len() * bpa <= usize::MAX,
    ensures
        n == bpa * sum_range(
            0,
            good@.len(),
            |i: int|
                if good@[i] {
                    1
                } else {
                    0
                },
        ),
        (forall|i: int| 0 <= i < good@.len() ==> #[trigger] good@[i]) ==> n == good@.len() * bpa,
        (forall|i: int| 0 <= i < good@.len() ==> !#[trigger] good@[i]) ==> n == 0,
{
    let ghost f = |i: int|
        if good@[i] {
            1int
        } else {
            0
        };
    let mut axes: usize = 0;
    let mut i: usize = 0;
    while i < good.len()
        invariant
            i <= good@.len(),
            f == (|i: int|
                if good@[i] {
                    1int
                } else {
                    0
                }),
            axes == sum_range(0, i as nat, f),
            axes <= i,
        decreases good@.len() - i,
    {
        if good[i] {
            axes = axes + 1;
        }
        i = i + 1;
    }
    assert(axes * bpa <= good@.len() * bpa && axes * bpa == bpa * axes) by (nonlinear_arith)
        requires
            0 <= axes <= good@.len(),
            bpa >= 0,
    ;
    proof {
        if forall|i: int| 0 <= i < good@.len() ==> #[trigger] good@[i] {
            lemma_all_counted(good@.len(), f);
        }
        if forall|i: int| 0 <= i < good@.len() ==> !#[trigger] good@[i] {
            lemma_sum_zero(0, good@.len(), f);
            assert(0 * bpa == 0) by (nonlinear_arith);
        }
    }
    axes * bpa
}

/// A sum of ones is their number.
proof fn lemma_all_counted(n: nat, f: spec_fn(int) -> int)
    requires
        forall|i: int| 0 <= i < n ==> #[trigger] f(i) == 1,
    ensures
        sum_range(0, n, f) == n,
    decreases n,
{
    if n > 0 {
        lemma_all_counted((n - 1) as nat, f);
    }
}

/// The Gray code can be read back: every place of the level is the parity of
/// the places of the code from there on up.
pub proof fn lemma_gray_read_back(a: u64)
    ensures
        ({
            let g = gray(a);
            let b = g ^ (g >> 1);
            let c = b ^ (b >> 2);
            let d = c ^ (c >> 4);
            let e = d ^ (d >> 8);
            let f = e ^ (e >> 16);
            f ^ (f >> 32)
        }) == a,
{
    assert(({
        let g = a ^ (a >> 1);
        let b = g ^ (g >> 1);
        let c = b ^ (b >> 2);
        let d = c ^ (c >> 4);
        let e = d ^ (d >> 8);
        let f = e ^ (e >> 16);
        f ^ (f >> 32)
    }) == a) by (bit_vector);
}

/// The pilots of a lattice are the cells whose column and row are both
/// multiples of its period. Without a lattice there are none.
pub proof fn lemma_lattice_cells(i: int, j: int, dx: int, dy: int, p: usize)
    requires
        p > 0,
        0 <= dx < p,
        0 <= dy < p,
    ensures
        on_lattice(i * p + dx, j * p + dy, Some(p)) <==> dx == 0 && dy == 0,
        !on_lattice(i, j, None),
{
    lemma_cell_unique(p as int, dx, i);
    lemma_cell_unique(p as int, dy, j);
}

/// Places carry data or are skipped: as many places are listed as carry data,
/// one more with each that is not skipped.
pub proof fn lemma_places_counted(skip: Seq<bool>, n: nat)
    requires
        n <= skip.len(),
    ensures
        data_places(skip, n).len() == data_before(skip, n),
        data_before(skip, n) + sum_range(
            0,
            n,
            |i: int|
                if skip[i] {
                    1
                } else {
                    0
                },
        ) == n,
    decreases n,
{
    if n > 0 {
        lemma_places_counted(skip, (n - 1) as nat);
    }
}

/// A pair is two draws in a row, the first component first, and the pairs
/// follow each other without a gap.
pub proof fn lemma_pairs_in_a_row(s: u64, lv: u32, k: nat)
    requires
        lv > 0,
    ensures
        drawn_pair(s, lv, 0).0 == output(xorshift(s)) % (lv as u64),
        drawn_pair(s, lv, 0).1 == output(xorshift(xorshift(s))) % (lv as u64),
        drawn_pair(s, lv, k + 1) == drawn_pair(state_after(s, 2), lv, k),
{
    reveal_with_fuel(state_after, 3);
    lemma_steps_add(s, 2, 2 * k + 1);
    lemma_steps_add(s, 2, 2 * k + 2);
    assert(2 * (k + 1) + 1 == 2 + (2 * k + 1) && 2 * (k + 1) + 2 == 2 + (2 * k + 2));
}

/// The pooled modes are the data modes whose orders differ from `o` by at most
/// `r`, each once, in ascending order.
pub proof fn lemma_modes_near(is_cal: Seq<bool>, o: int, r: int, n: nat)
    requires
        n <= usize::MAX,
    ensures
        forall|i: int, j: int|
            0 <= i < j < modes_near(is_cal, o, r, n).len() ==> #[trigger] modes_near(
                is_cal,
                o,
                r,
                n,
            )[i] < #[trigger] modes_near(is_cal, o, r, n)[j],
        forall|i: int|
            0 <= i < modes_near(is_cal, o, r, n).len() ==> {
                let k = #[trigger] modes_near(is_cal, o, r, n)[i] as int;
                k < n && !is_cal[k] && -r <= k / 24 + k % 24 - o <= r
            },
        forall|k: usize|
            k < n && !is_cal[k as int] && -r <= k as int / 24 + k as int % 24 - o <= r
                ==> #[trigger] modes_near(is_cal, o, r, n).contains(k),
    decreases n,
{
    if n > 0 {
        let m = (n - 1) as nat;
        lemma_modes_near(is_cal, o, r, m);
        let before = modes_near(is_cal, o, r, m);
        let after = modes_near(is_cal, o, r, n);
        assert forall|k: usize|
            k < n && !is_cal[k as int] && -r <= k as int / 24 + k as int % 24 - o
                <= r implies #[trigger] after.contains(k) by {
            if k < m {
                assert(before.contains(k));
                let i = choose|i: int| 0 <= i < before.len() && before[i] == k;
                assert(after[i] == k);
            } else {
                assert(after[after.len() - 1] == k);
            }
        }
    }
}

/// The reach of a pool is the smallest, at most three, that gathers eight modes.
pub proof fn lemma_pool_reach(is_cal: Seq<bool>, o: int, r: int)
    requires
        0 <= r <= 3,
    ensures
        0 <= pool_reach(is_cal, o) <= 3,
        r < pool_reach(is_cal, o) ==> modes_near(is_cal, o, r, is_cal.len()).len() < 8,
        pool_reach(is_cal, o) < 3 ==> modes_near(
            is_cal,
            o,
            pool_reach(is_cal, o),
            is_cal.len(),
        ).len() >= 8,
{
}

/// The calibration modes are listed by their total order, without repetition,
/// and are all the modes of order at most two.
pub proof fn lemma_calibration_list(i: int, j: int)
    requires
        0 <= i < j < 6,
    ensures
        cal_modes().len() == 6,
        cal_modes()[i] != cal_modes()[j],
        cal_modes()[i].0 + cal_modes()[i].1 <= cal_modes()[j].0 + cal_modes()[j].1 <= 2,
        is_calibration(cal_modes()[i].0 * 24 + cal_modes()[i].1),
        is_calibration(cal_modes()[j].0 * 24 + cal_modes()[j].1),
{
}

} // verus!
