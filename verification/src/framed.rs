//! Frames of symbols through a rolling-shutter camera: the torn snapshot, the
//! attribution of its stripes and the bytes that survive.
//!
//! A snapshot taken while the display changes frames shows the rows above the
//! tear from frame N and the rows below it from frame N+1. Each frame is cut
//! into eight stripes with a checksum each. The run of valid stripes from the
//! top carries frame N, which the header in stripe 0 identifies; the run of
//! valid stripes to the bottom carries frame N+1.

use vstd::prelude::*;

use crate::arith::{lemma_unit_mul_injective, lemma_unit_mul_undone};
use crate::grid::{lemma_cell_inside, lemma_cell_split, lemma_cell_unique};
use crate::rng::{below, xorshift, Rng};
use crate::sums::{
    lemma_sum_below, lemma_sum_changed, lemma_sum_prefix, lemma_sum_range_congruent,
    lemma_sum_split, lemma_sum_zero, sum_range,
};
use crate::symbol::{PAYLOAD_COLS, PAYLOAD_ROWS, RING};

verus! {

/// Bytes of a frame header.
pub const FRAME_HEADER_LEN: usize = 12;

/// Bytes of the transfer information that follows some headers.
pub const TRANSFER_INFO_LEN: usize = 14;

/// Symbols announced in a frame header.
pub const SYMBOLS_PER_FRAME: u32 = 9;

/// A rendered square frame, one byte per channel.
pub struct Frame {
    pub size_px: usize,
    pub quiet_cells: usize,
    pub rgb: Vec<[u8; 3]>,
}

impl Frame {
    /// The pixels fill the square.
    pub open spec fn wf(&self) -> bool {
        self.rgb@.len() == self.size_px * self.size_px
    }
}

/// The torn snapshot: rows above `t` from `a`, the others from `b`.
pub fn compose_torn(a: &Frame, b: &Frame, t: usize) -> (r: Frame)
    requires
        a.wf(),
        b.wf(),
        a.size_px == b.size_px,
    ensures
        r.wf(),
        r.size_px == a.size_px,
        r.quiet_cells == a.quiet_cells,
        forall|c: int|
            0 <= c < r.rgb@.len() ==> #[trigger] r.rgb@[c] == if c / (a.size_px as int) < t {
                a.rgb@[c]
            } else {
                b.rgb@[c]
            },
        forall|x: int, y: int|
            0 <= x < a.size_px && 0 <= y < a.size_px ==> {
                &&& y < t ==> #[trigger] r.rgb@[y * a.size_px + x] == a.rgb@[y * a.size_px + x]
                &&& y >= t ==> r.rgb@[y * a.size_px + x] == b.rgb@[y * a.size_px + x]
            },
{
    let n: usize = a.size_px;
    let len: usize = a.rgb.len();
    let mut rgb: Vec<[u8; 3]> = Vec::new();
    let mut i: usize = 0;
    while i < len
        invariant
            n == a.size_px,
            n == b.size_px,
            len == n * n,
            a.rgb@.len() == len,
            b.rgb@.len() == len,
            i <= len,
            rgb@.len() == i,
            forall|c: int|
                0 <= c < i ==> #[trigger] rgb@[c] == if c / (n as int) < t {
                    a.rgb@[c]
                } else {
                    b.rgb@[c]
                },
        decreases len - i,
    {
        proof {
            lemma_cell_split(n as int, n as int, i as int);
        }
        rgb.push(if i / n < t { a.rgb[i] } else { b.rgb[i] });
        i = i + 1;
    }
    proof {
        assert forall|x: int, y: int| 0 <= x < n && 0 <= y < n implies {
            &&& y < t ==> #[trigger] rgb@[y * n + x] == a.rgb@[y * n + x]
            &&& y >= t ==> rgb@[y * n + x] == b.rgb@[y * n + x]
        } by {
            lemma_cell_inside(n as int, n as int, x, y);
            lemma_cell_unique(n as int, x, y);
        }
    }
    Frame { size_px: n, quiet_cells: a.quiet_cells, rgb }
}

/// State from which the bytes of frame `seq` are generated.
pub open spec fn filler_start(seq: u32) -> u32 {
    0x9E37_79B9u32 ^ seq.wrapping_mul(0x85EB_CA6B).wrapping_add(1)
}

/// One step of the byte generator.
pub open spec fn filler_next(s: u32) -> u32 {
    s.wrapping_mul(1_664_525).wrapping_add(1_013_904_223)
}

/// State of the byte generator of frame `seq` after `n` steps.
pub open spec fn filler_state(seq: u32, n: nat) -> u32
    decreases n,
{
    if n == 0 {
        filler_start(seq)
    } else {
        filler_next(filler_state(seq, (n - 1) as nat))
    }
}

/// Symbol byte `i` of frame `seq`.
pub open spec fn filler_byte(seq: u32, i: int) -> u8 {
    (filler_state(seq, (i + 1) as nat) >> 24) as u8
}

/// The symbol bytes of frame `seq`: the high bytes of a linear congruential generator.
pub fn frame_symbol_bytes(seq: u32, len: usize) -> (bytes: Vec<u8>)
    ensures
        bytes@.len() == len,
        forall|i: int|
            0 <= i < len ==> #[trigger] bytes@[i] == filler_byte(seq, i),
{
    let mut s: u32 = 0x9E37_79B9u32 ^ seq.wrapping_mul(0x85EB_CA6B).wrapping_add(1);
    let mut bytes: Vec<u8> = Vec::new();
    let mut i: usize = 0;
    while i < len
        invariant
            i <= len,
            s == filler_state(seq, i as nat),
            bytes@.len() == i,
            forall|j: int|
                0 <= j < i ==> #[trigger] bytes@[j] == filler_byte(seq, j),
        decreases len - i,
    {
        s = s.wrapping_mul(1_664_525).wrapping_add(1_013_904_223);
        bytes.push((s >> 24) as u8);
        i = i + 1;
    }
    bytes
}

/// Frames with different numbers never share a generator state at the same byte.
pub proof fn lemma_filler_distinct(p: u32, q: u32, n: nat)
    requires
        p != q,
    ensures
        filler_state(p, n) != filler_state(q, n),
    decreases n,
{
    let m = 0x1_0000_0000int;
    if n == 0 {
        if filler_start(p) == filler_start(q) {
            let a = p.wrapping_mul(0x85EB_CA6B).wrapping_add(1);
            let b = q.wrapping_mul(0x85EB_CA6B).wrapping_add(1);
            lemma_xor_twice(0x9E37_79B9u32, a);
            lemma_xor_twice(0x9E37_79B9u32, b);
            lemma_unit_mul_injective(m, p as int, q as int, 0x85EB_CA6B, 0xA5CB_9243, 1455126516);
        }
    } else {
        let a = filler_state(p, (n - 1) as nat);
        let b = filler_state(q, (n - 1) as nat);
        lemma_filler_distinct(p, q, (n - 1) as nat);
        if filler_next(a) == filler_next(b) {
            lemma_unit_mul_injective(m, a as int, b as int, 1_664_525, 0xFEE0_58C5, 1657219);
        }
    }
}

/// A nonzero number and its first four multiples by the generator's factor,
/// modulo 2^32, are not all within 2^24 of zero.
proof fn lemma_multiples_spread(
    d1: int,
    d2: int,
    d3: int,
    d4: int,
    d5: int,
    k1: int,
    k2: int,
    k3: int,
    k4: int,
)
    requires
        d2 == 1664525 * d1 - 0x1_0000_0000 * k1,
        d3 == 1664525 * d2 - 0x1_0000_0000 * k2,
        d4 == 1664525 * d3 - 0x1_0000_0000 * k3,
        d5 == 1664525 * d4 - 0x1_0000_0000 * k4,
        -0x100_0000 < d1 < 0x100_0000,
        -0x100_0000 < d2 < 0x100_0000,
        -0x100_0000 < d3 < 0x100_0000,
        -0x100_0000 < d4 < 0x100_0000,
        -0x100_0000 < d5 < 0x100_0000,
    ensures
        d1 == 0,
{
    // Five short combinations of the numbers that are multiples of 2^32.
    let m = 0x1_0000_0000int;
    let t0 = 46470249785579951 * d1 - (119907002337613975121 * k1
        + 72036768650284 * k2
        + 43277673 * k3
        + 26 * k4);
    assert((-29) * d1 + 21 * d2 + (-41) * d3 + 23 * d4 + 26 * d5 == m * t0);
    assert(t0 == 0);
    let t1 = (-66130654467046127) * d1 - ((-170636667036565641963) * k1
        + (-102513730365459) * k2
        + (-61587378) * k3
        + (-37) * k4);
    assert((-17) * d1 + 12 * d2 + (-9) * d3 + 47 * d4 + (-37) * d5 == m * t1);
    assert(t1 == 0);
    let t2 = 51832223531037473 * d1 - (133742482056302901720 * k1
        + 80348737361291 * k2
        + 48271271 * k3
        + 29 * k4);
    assert(8 * d1 + (-55) * d2 + 16 * d3 + 46 * d4 + 29 * d5 == m * t2);
    assert(t2 == 0);
    let t3 = 76854645982456864 * d1 - (198307740070176188769 * k1
        + 119137736032908 * k2
        + 71574615 * k3
        + 43 * k4);
    assert(19 * d1 + 69 * d2 + 33 * d3 + 40 * d4 + 43 * d5 == m * t3);
    assert(t3 == 0);
    let t4 = (-17873099069590214) * d1 - ((-46117887074125049039) * k1
        + (-27706334884802) * k2
        + (-16645190) * k3
        + (-10) * k4);
    assert(131 * d1 + 11 * d2 + (-52) * d3 + 60 * d4 + (-10) * d5 == m * t4);
    // The first number is a combination of their quotients.
    assert(d1 == (-23903859) * t0 + (-20394655) * t1 + (-2967363) * t2 + 4572302 * t3 + 24365736 * t4);
}

/// Where two states have the same high byte they are close, and a step
/// multiplies their difference modulo 2^32.
proof fn lemma_filler_difference(a: u32, b: u32) -> (k: int)
    ensures
        a >> 24 == b >> 24 ==> -0x100_0000 < a - b < 0x100_0000,
        filler_next(a) - filler_next(b) == 1664525 * (a - b) - 0x1_0000_0000 * k,
{
    assert(a >> 24 == a / 0x100_0000 && b >> 24 == b / 0x100_0000) by (bit_vector);
    let m = 0x1_0000_0000int;
    let (x, y) = (a * 1664525, b * 1664525);
    let (v, w) = (x % m + 1013904223, y % m + 1013904223);
    x / m - y / m + v / m - w / m
}

/// Frames with different numbers differ in one of their first five bytes.
/// Four bytes would not do: frames 150287233 and 1849570002 share theirs.
pub proof fn lemma_filler_bytes_differ(p: u32, q: u32)
    requires
        p != q,
    ensures
        exists|i: int| 0 <= i < 5 && #[trigger] filler_byte(p, i) != filler_byte(q, i),
{
    if forall|i: int| 0 <= i < 5 ==> #[trigger] filler_byte(p, i) == filler_byte(q, i) {
        let a = |n: nat| filler_state(p, n);
        let b = |n: nat| filler_state(q, n);
        assert forall|n: nat| 1 <= n <= 5 implies #[trigger] a(n) >> 24 == b(n) >> 24 by {
            let (x, y) = (a(n), b(n));
            assert(filler_byte(p, n - 1) == filler_byte(q, n - 1));
            assert((x >> 24) as u8 == (y >> 24) as u8 ==> x >> 24 == y >> 24) by (bit_vector);
        }
        let k1 = lemma_filler_difference(a(1), b(1));
        let k2 = lemma_filler_difference(a(2), b(2));
        let k3 = lemma_filler_difference(a(3), b(3));
        let k4 = lemma_filler_difference(a(4), b(4));
        let _ = lemma_filler_difference(a(5), b(5));
        lemma_multiples_spread(
            a(1) - b(1),
            a(2) - b(2),
            a(3) - b(3),
            a(4) - b(4),
            a(5) - b(5),
            k1,
            k2,
            k3,
            k4,
        );
        lemma_filler_distinct(p, q, 1);
    }
}

/// Byte capacity of a stripe of `rows` rows at `bpc` bits per cell, two bytes
/// of checksum aside.
pub open spec fn stripe_cap(rows: int, bpc: int) -> int {
    (rows * PAYLOAD_COLS * bpc - 16) / 8
}

/// Byte capacities of the eight stripes.
pub fn stripe_caps(stripe_rows: &[usize; 8], bpc: u32) -> (caps: [usize; 8])
    requires
        forall|i: int|
            0 <= i < 8 ==> 16 <= #[trigger] stripe_rows@[i] * PAYLOAD_COLS * bpc <= usize::MAX,
    ensures
        forall|i: int|
            0 <= i < 8 ==> #[trigger] caps@[i] == stripe_cap(stripe_rows@[i] as int, bpc as int),
{
    let mut caps: [usize; 8] = [0usize; 8];
    let mut i: usize = 0;
    while i < 8
        invariant
            i <= 8,
            forall|j: int|
                0 <= j < 8 ==> 16 <= #[trigger] stripe_rows@[j] * PAYLOAD_COLS * bpc <= usize::MAX,
            forall|j: int|
                0 <= j < i ==> #[trigger] caps@[j] == stripe_cap(
                    stripe_rows@[j] as int,
                    bpc as int,
                ),
        decreases 8 - i,
    {
        let rows: usize = stripe_rows[i];
        assert(16 <= stripe_rows@[i as int] * PAYLOAD_COLS * bpc);
        assert(rows * PAYLOAD_COLS <= rows * PAYLOAD_COLS * bpc) by (nonlinear_arith)
            requires
                rows * PAYLOAD_COLS * bpc >= 16,
                rows >= 0,
                bpc >= 0,
        ;
        caps[i] = (rows * PAYLOAD_COLS * bpc as usize - 16) / 8;
        i = i + 1;
    }
    caps
}

/// What stripe `i` of frame N carries beyond the header of `header_len` bytes.
pub open spec fn stripe_bytes(caps: Seq<usize>, header_len: int, i: int) -> int {
    if i == 0 {
        if caps[0] > header_len {
            caps[0] - header_len
        } else {
            0
        }
    } else {
        caps[i] as int
    }
}

/// Useful bytes of a snapshot of one frame: those of its valid stripes.
pub open spec fn clean_bytes(ok: Seq<bool>, caps: Seq<usize>, header_len: int) -> int {
    sum_range(
        0,
        8,
        |i: int|
            if ok[i] {
                stripe_bytes(caps, header_len, i)
            } else {
                0
            },
    )
}

/// Stripe `i` belongs to the run of valid stripes from the top.
pub open spec fn in_top_run(ok: Seq<bool>, i: int) -> bool {
    forall|j: int| 0 <= j <= i ==> #[trigger] ok[j]
}

/// Stripe `i` belongs to the run of valid stripes to the bottom.
pub open spec fn in_bottom_run(ok: Seq<bool>, i: int) -> bool {
    forall|j: int| i <= j < 8 ==> #[trigger] ok[j]
}

/// Useful bytes of a torn snapshot: those of frame N in the top run and those
/// of frame N+1 in the bottom run. With all stripes valid there is no dead
/// seam, and the whole snapshot counts as frame N.
pub open spec fn torn_bytes(ok: Seq<bool>, caps: Seq<usize>, header_len: int) -> int {
    sum_range(
        0,
        8,
        |i: int|
            if in_top_run(ok, i) {
                stripe_bytes(caps, header_len, i)
            } else if in_bottom_run(ok, i) {
                caps[i] as int
            } else {
                0
            },
    )
}

/// The sum of all the capacities.
pub open spec fn total_cap(caps: Seq<usize>) -> int {
    sum_range(0, 8, |i: int| caps[i] as int)
}

/// Useful bytes of a snapshot of one frame.
pub fn clean_useful_bytes(stripes_ok: &[bool; 8], caps: &[usize; 8], header_len: usize) -> (n: usize)
    requires
        total_cap(caps@) <= usize::MAX,
    ensures
        n == clean_bytes(stripes_ok@, caps@, header_len as int),
{
    let ghost f = |i: int|
        if stripes_ok@[i] {
            stripe_bytes(caps@, header_len as int, i)
        } else {
            0
        };
    let ghost g = |i: int| caps@[i] as int;
    let mut sum: usize = 0;
    let mut i: usize = 0;
    while i < 8
        invariant
            i <= 8,
            f == (|i: int|
                if stripes_ok@[i] {
                    stripe_bytes(caps@, header_len as int, i)
                } else {
                    0
                }),
            g == (|i: int| caps@[i] as int),
            sum_range(0, 8, g) <= usize::MAX,
            sum == sum_range(0, i as nat, f),
        decreases 8 - i,
    {
        proof {
            lemma_sum_below((i + 1) as nat, f, g);
            lemma_sum_prefix((i + 1) as nat, 8, g);
        }
        if stripes_ok[i] {
            let bytes: usize = if i == 0 { caps[0].saturating_sub(header_len) } else { caps[i] };
            sum = sum + bytes;
        }
        i = i + 1;
    }
    sum
}

/// Useful bytes of a torn snapshot.
pub fn torn_useful_bytes(stripes_ok: &[bool; 8], caps: &[usize; 8], header_len: usize) -> (n: usize)
    requires
        total_cap(caps@) <= usize::MAX,
    ensures
        n == torn_bytes(stripes_ok@, caps@, header_len as int),
{
    let ghost ok = stripes_ok@;
    let mut top_end: usize = 0;
    while top_end < 8 && stripes_ok[top_end]
        invariant
            top_end <= 8,
            ok == stripes_ok@,
            forall|j: int| 0 <= j < top_end ==> #[trigger] ok[j],
        decreases 8 - top_end,
    {
        top_end = top_end + 1;
    }
    let mut bot_start: usize = 8;
    while bot_start > 0 && stripes_ok[bot_start - 1]
        invariant
            bot_start <= 8,
            ok == stripes_ok@,
            forall|j: int| bot_start <= j < 8 ==> #[trigger] ok[j],
        decreases bot_start,
    {
        bot_start = bot_start - 1;
    }
    let ghost f = |i: int|
        if in_top_run(ok, i) {
            stripe_bytes(caps@, header_len as int, i)
        } else if in_bottom_run(ok, i) {
            caps@[i] as int
        } else {
            0
        };
    if top_end >= bot_start {
        proof {
            assert(top_end == 8) by {
                if top_end < 8 {
                    assert(!ok[top_end as int]);
                }
            }
            let h = |i: int|
                if ok[i] {
                    stripe_bytes(caps@, header_len as int, i)
                } else {
                    0
                };
            assert forall|i: int| 0 <= i < 0 + 8 implies #[trigger] f(i) == h(i) by {
                assert(in_top_run(ok, i));
            }
            lemma_sum_range_congruent(0, 8, f, h);
        }
        return clean_useful_bytes(stripes_ok, caps, header_len);
    }
    let ghost g = |i: int| caps@[i] as int;
    proof {
        assert(!ok[top_end as int]);
        assert(!ok[bot_start - 1]);
        assert forall|i: int| 0 <= i < 8 implies #[trigger] f(i) == if i < top_end {
            stripe_bytes(caps@, header_len as int, i)
        } else if i >= bot_start {
            caps@[i] as int
        } else {
            0
        } by {
            if i < top_end {
                assert(in_top_run(ok, i));
            } else {
                assert(!in_top_run(ok, i));
                if i >= bot_start {
                    assert(in_bottom_run(ok, i));
                } else {
                    assert(!in_bottom_run(ok, i));
                }
            }
        }
    }
    let mut sum: usize = 0;
    let mut i: usize = 0;
    while i < 8
        invariant
            i <= 8,
            top_end < bot_start <= 8,
            g == (|i: int| caps@[i] as int),
            sum_range(0, 8, g) <= usize::MAX,
            forall|i: int|
                0 <= i < 8 ==> #[trigger] f(i) == if i < top_end {
                    stripe_bytes(caps@, header_len as int, i)
                } else if i >= bot_start {
                    caps@[i] as int
                } else {
                    0
                },
            sum == sum_range(0, i as nat, f),
        decreases 8 - i,
    {
        proof {
            lemma_sum_below((i + 1) as nat, f, g);
            lemma_sum_prefix((i + 1) as nat, 8, g);
        }
        if i < top_end {
            let bytes: usize = if i == 0 { caps[0].saturating_sub(header_len) } else { caps[i] };
            sum = sum + bytes;
        } else if i >= bot_start {
            sum = sum + caps[i];
        }
        i = i + 1;
    }
    sum
}

/// What the sender fixes about frame N and its successor.
#[derive(Clone, Copy, Debug)]
pub struct FramePlan {
    /// Number of the frame.
    pub seq: u32,
    /// Identifier of the first symbol of the frame.
    pub esi: u32,
    /// Identifier of the first symbol of the next frame.
    pub next_esi: u32,
    /// Whether the frame repeats the transfer information.
    pub carries_info: bool,
    /// Bytes before the symbols of the frame.
    pub header_len: usize,
    /// Counter shown by the frame.
    pub counter: u8,
    /// Counter shown by the next frame.
    pub next_counter: u8,
}

/// Identifier of the first symbol of frame `seq`: frames number their symbols
/// on, in 24 bits.
pub open spec fn first_symbol(seq: int) -> int {
    (seq * SYMBOLS_PER_FRAME) % 0x100_0000
}

/// A counter of eight bits moves on by one.
proof fn lemma_counter_moves(seq: int)
    ensures
        (seq + 1) % 256 == (seq % 256 + 1) % 256,
{
}

/// The plan of frame `seq`. Every eighth frame carries the transfer information.
pub fn plan_frame(seq: u32) -> (plan: FramePlan)
    requires
        seq < u32::MAX,
    ensures
        plan.seq == seq,
        plan.esi == first_symbol(seq as int),
        plan.next_esi == first_symbol(seq + 1),
        plan.carries_info == (seq % 8 == 0),
        plan.header_len == FRAME_HEADER_LEN + if seq % 8 == 0 {
            TRANSFER_INFO_LEN
        } else {
            0
        },
        plan.counter == seq % 256,
        plan.next_counter == (seq + 1) % 256,
        plan.next_esi == (plan.esi + 9) % 0x100_0000,
        plan.next_counter == (plan.counter + 1) % 256,
        plan.header_len == 26 <==> plan.carries_info,
        plan.header_len == 12 <==> !plan.carries_info,
{
    let here: u32 = seq.wrapping_mul(SYMBOLS_PER_FRAME);
    let next: u32 = (seq + 1).wrapping_mul(SYMBOLS_PER_FRAME);
    let after: u32 = seq + 1;
    assert(here & 0x00FF_FFFF == here % 0x100_0000 && next & 0x00FF_FFFF == next % 0x100_0000)
        by (bit_vector);
    assert((seq & 0xFF) as u8 == seq % 256 && (after & 0xFF) as u8 == after % 256) by (bit_vector);
    proof {
        lemma_symbols_numbered_on(seq as int);
        lemma_counter_moves(seq as int);
    }
    let carries_info: bool = seq % 8 == 0;
    let header_len: usize = if carries_info {
        FRAME_HEADER_LEN + TRANSFER_INFO_LEN
    } else {
        FRAME_HEADER_LEN
    };
    FramePlan {
        seq,
        esi: here & 0x00FF_FFFF,
        next_esi: next & 0x00FF_FFFF,
        carries_info,
        header_len,
        counter: (seq & 0xFF) as u8,
        next_counter: (after & 0xFF) as u8,
    }
}

/// Pixel row at which payload row `row` begins.
pub open spec fn payload_row_px(quiet: int, cell: int, row: int) -> int {
    (quiet + RING + row + 1) * cell
}

/// The pixel row of a tear: within a random payload row, below its first pixel
/// row. A cell of at least two pixels is cut inside, so that its row mixes both frames.
pub fn tear_row(rng: &mut Rng, quiet: usize, cell: usize) -> (t: usize)
    requires
        1 <= cell <= u32::MAX,
        (quiet + 60) * cell <= usize::MAX,
    ensures
        ({
            let s1 = xorshift(old(rng)@);
            let s2 = xorshift(s1);
            let span = if cell > 2 { (cell - 1) as u32 } else { 1u32 };
            &&& t == payload_row_px(
                quiet as int,
                cell as int,
                below(s1, PAYLOAD_ROWS as u32) as int,
            ) + 1 + below(s2, span)
            &&& final(rng)@ == s2
            &&& cell >= 2 ==> t as int / cell as int == quiet + RING + 1 + below(
                s1,
                PAYLOAD_ROWS as u32,
            ) && t as int % cell as int != 0
        }),
        cell >= 2 ==> quiet + 3 <= t as int / cell as int <= quiet + 57,
{
    let row: usize = rng.next_u32_below(PAYLOAD_ROWS as u32) as usize;
    assert((quiet + RING + row + 1) * cell + cell <= (quiet + 60) * cell) by (nonlinear_arith)
        requires
            row < PAYLOAD_ROWS,
            cell >= 0,
            RING == 2,
            PAYLOAD_ROWS == 55,
    ;
    assert(quiet + 60 <= (quiet + 60) * cell) by (nonlinear_arith)
        requires
            cell >= 1,
            quiet >= 0,
    ;
    let top: usize = (quiet + RING + (row + 1)) * cell;
    let span: u32 = if cell - 1 > 1 { (cell - 1) as u32 } else { 1 };
    let off: usize = 1 + rng.next_u32_below(span) as usize;
    proof {
        if cell >= 2 {
            lemma_cell_unique(cell as int, off as int, quiet + RING + (row + 1));
        }
    }
    top + off
}

/// The two header fields that the attribution reads.
#[derive(Clone, Copy, Debug)]
pub struct HeaderFields {
    pub esi: u32,
    pub count: u8,
}

/// Outcome of one frame through the channel.
#[derive(Clone, Copy, Debug)]
pub struct FramedTrial {
    /// Whether the snapshot was torn.
    pub torn: bool,
    /// Whether the receiver saw a tear.
    pub torn_detected: bool,
    /// Validity of the stripes after the channel.
    pub stripes_ok: [bool; 8],
    /// Useful symbol bytes when a torn snapshot is thrown away.
    pub useful_off: usize,
    /// Useful symbol bytes when a torn snapshot is decoded in part.
    pub useful_on: usize,
    /// Whether the frame is lost: the header stripe, or all of them, dead.
    pub frame_lost: bool,
}

/// The frame number that a header announces, modulo the range of symbol identifiers.
pub open spec fn header_seq(h: HeaderFields) -> int {
    if h.count > 0 {
        h.esi as int / h.count as int
    } else {
        0
    }
}

/// The receiver sees a tear: the counter row does not belong to the frame of
/// the header, or there is no header.
pub open spec fn sees_tear(header: Option<HeaderFields>, counter: u8) -> bool {
    match header {
        Some(h) => counter != header_seq(h) % 256,
        None => true,
    }
}

/// Attributes the stripes of a snapshot to frame N and N+1.
///
/// Without a header nothing can be attributed. With one, a snapshot whose
/// counter row agrees counts as frame N; otherwise it is torn and worth
/// nothing without partial decoding, and its two runs of valid stripes with it.
pub fn attribute_stripes(
    torn: bool,
    stripes_ok: [bool; 8],
    header: Option<HeaderFields>,
    counter: u8,
    caps: &[usize; 8],
    header_len: usize,
) -> (r: FramedTrial)
    requires
        total_cap(caps@) <= usize::MAX,
    ensures
        r.torn == torn,
        r.stripes_ok == stripes_ok,
        r.torn_detected == sees_tear(header, counter),
        r.useful_off == if sees_tear(header, counter) {
            0
        } else {
            clean_bytes(stripes_ok@, caps@, header_len as int)
        },
        r.useful_on == if header is None {
            0
        } else if sees_tear(header, counter) {
            torn_bytes(stripes_ok@, caps@, header_len as int)
        } else {
            clean_bytes(stripes_ok@, caps@, header_len as int)
        },
        r.frame_lost == (!stripes_ok@[0] || forall|i: int| 0 <= i < 8 ==> !#[trigger] stripes_ok@[i]),
        r.frame_lost <==> !stripes_ok@[0],
        r.torn_detected ==> r.useful_off == 0,
        !r.torn_detected ==> r.useful_on == r.useful_off,
        r.useful_off <= r.useful_on,
        header is None ==> r.torn_detected && r.useful_on == 0,
{
    let frame_lost: bool = !stripes_ok[0];
    match header {
        Some(h) => {
            let seq_top: u32 = if h.count > 0 { h.esi / h.count as u32 } else { 0 };
            assert(seq_top & 0xFF == seq_top % 256) by (bit_vector);
            if counter as u32 == seq_top & 0xFF {
                let bytes: usize = clean_useful_bytes(&stripes_ok, caps, header_len);
                FramedTrial {
                    torn,
                    torn_detected: false,
                    stripes_ok,
                    useful_off: bytes,
                    useful_on: bytes,
                    frame_lost,
                }
            } else {
                let on: usize = torn_useful_bytes(&stripes_ok, caps, header_len);
                FramedTrial {
                    torn,
                    torn_detected: true,
                    stripes_ok,
                    useful_off: 0,
                    useful_on: on,
                    frame_lost,
                }
            }
        },
        None => FramedTrial {
            torn,
            torn_detected: true,
            stripes_ok,
            useful_off: 0,
            useful_on: 0,
            frame_lost,
        },
    }
}

/// Partial decoding never loses: a torn snapshot yields no more than the same
/// stripes would as one frame, and no less than nothing.
pub proof fn lemma_torn_at_most_clean(ok: Seq<bool>, caps: Seq<usize>, header_len: int)
    requires
        ok.len() == 8,
        caps.len() == 8,
        header_len >= 0,
    ensures
        0 <= torn_bytes(ok, caps, header_len) <= clean_bytes(ok, caps, header_len) <= total_cap(
            caps,
        ),
{
    let f = |i: int|
        if in_top_run(ok, i) {
            stripe_bytes(caps, header_len, i)
        } else if in_bottom_run(ok, i) {
            caps[i] as int
        } else {
            0
        };
    let g = |i: int|
        if ok[i] {
            stripe_bytes(caps, header_len, i)
        } else {
            0
        };
    let h = |i: int| caps[i] as int;
    assert forall|i: int| 0 <= i < 8 implies 0 <= #[trigger] f(i) <= g(i) by {
        if in_top_run(ok, i) {
            assert(ok[i]);
        } else if in_bottom_run(ok, i) {
            assert(ok[i]);
            if i == 0 {
                assert(in_top_run(ok, 0));
            }
        }
    }
    lemma_sum_below(8, f, g);
    lemma_sum_below(8, g, h);
}

/// A snapshot with all stripes valid yields all the capacity beyond the
/// header, torn or not.
pub proof fn lemma_all_valid(ok: Seq<bool>, caps: Seq<usize>, header_len: int)
    requires
        ok.len() == 8,
        caps.len() == 8,
        forall|i: int| 0 <= i < 8 ==> #[trigger] ok[i],
        0 <= header_len <= caps[0],
    ensures
        clean_bytes(ok, caps, header_len) == total_cap(caps) - header_len,
        torn_bytes(ok, caps, header_len) == total_cap(caps) - header_len,
{
    assert(in_top_run(ok, 0) && in_top_run(ok, 1) && in_top_run(ok, 2) && in_top_run(ok, 3)
        && in_top_run(ok, 4) && in_top_run(ok, 5) && in_top_run(ok, 6) && in_top_run(ok, 7));
    reveal_with_fuel(sum_range, 9);
}

/// A tear that kills one stripe below the header costs that stripe alone.
pub proof fn lemma_one_dead_stripe(ok: Seq<bool>, caps: Seq<usize>, header_len: int, dead: int)
    requires
        ok.len() == 8,
        caps.len() == 8,
        0 < dead < 8,
        forall|i: int| 0 <= i < 8 ==> (#[trigger] ok[i] <==> i != dead),
        0 <= header_len <= caps[0],
    ensures
        torn_bytes(ok, caps, header_len) == total_cap(caps) - header_len - caps[dead],
{
    assert forall|i: int| 0 <= i < 8 implies (#[trigger] in_top_run(ok, i) <==> i < dead) by {
        if i >= dead {
            assert(!ok[dead]);
        }
    }
    assert forall|i: int| 0 <= i < 8 implies (#[trigger] in_bottom_run(ok, i) <==> i > dead) by {
        if i <= dead {
            assert(!ok[dead]);
        }
    }
    reveal_with_fuel(sum_range, 9);
}

/// The frame is lost exactly when its header stripe is dead.
pub proof fn lemma_lost_is_dead_header(ok: Seq<bool>)
    requires
        ok.len() == 8,
    ensures
        (!ok[0] || forall|i: int| 0 <= i < 8 ==> !#[trigger] ok[i]) <==> !ok[0],
{
}

/// While symbol identifiers have not wrapped, the header and counter of a
/// whole frame agree, and the counter of the next frame gives a tear away.
pub proof fn lemma_counter_tells_tear(seq: u32, counter: u8)
    requires
        seq * SYMBOLS_PER_FRAME < 0x100_0000,
    ensures
        ({
            let h = HeaderFields {
                esi: first_symbol(seq as int) as u32,
                count: SYMBOLS_PER_FRAME as u8,
            };
            sees_tear(Some(h), counter) <==> counter != seq % 256
        }),
        ({
            let h = HeaderFields {
                esi: first_symbol(seq as int) as u32,
                count: SYMBOLS_PER_FRAME as u8,
            };
            sees_tear(Some(h), ((seq + 1) % 256) as u8)
        }),
{
}

/// Every stripe of a snapshot of one frame speaks for itself. A valid one adds
/// its capacity, the first one what the header leaves of it, and a dead one
/// adds nothing: with all stripes dead nothing is left, and with one dead
/// stripe below the header its capacity is what is missing.
pub proof fn lemma_clean_stripe_by_stripe(
    ok: Seq<bool>,
    caps: Seq<usize>,
    header_len: int,
    i: int,
)
    requires
        ok.len() == 8,
        caps.len() == 8,
        0 <= i < 8,
    ensures
        clean_bytes(ok.update(i, true), caps, header_len) - clean_bytes(
            ok.update(i, false),
            caps,
            header_len,
        ) == if i > 0 {
            caps[i] as int
        } else if caps[0] > header_len {
            caps[0] - header_len
        } else {
            0
        },
        (forall|j: int| 0 <= j < 8 ==> !#[trigger] ok[j]) ==> clean_bytes(ok, caps, header_len)
            == 0,
        i > 0 && header_len <= caps[0] && (forall|j: int|
            0 <= j < 8 ==> (#[trigger] ok[j] <==> j != i)) ==> clean_bytes(ok, caps, header_len)
            == caps[0] + caps[1] + caps[2] + caps[3] + caps[4] + caps[5] + caps[6] + caps[7]
            - header_len - caps[i],
{
    reveal_with_fuel(sum_range, 9);
}

/// The capacity of a snapshot is that of its eight stripes together.
pub proof fn lemma_total_capacity(caps: Seq<usize>)
    requires
        caps.len() == 8,
    ensures
        total_cap(caps) == caps[0] + caps[1] + caps[2] + caps[3] + caps[4] + caps[5] + caps[6]
            + caps[7],
{
    reveal_with_fuel(sum_range, 9);
}

/// A torn snapshot is worth its valid stripes above the first dead one, less
/// the header, and its valid stripes below the last dead one, which belong to
/// the next frame and carry no header. What is valid between two dead stripes
/// counts for neither frame.
pub proof fn lemma_torn_two_runs(
    ok: Seq<bool>,
    caps: Seq<usize>,
    header_len: int,
    first_dead: int,
    last_dead: int,
)
    requires
        ok.len() == 8,
        caps.len() == 8,
        0 <= first_dead <= last_dead < 8,
        !ok[first_dead],
        !ok[last_dead],
        forall|j: int| 0 <= j < first_dead ==> #[trigger] ok[j],
        forall|j: int| last_dead < j < 8 ==> #[trigger] ok[j],
        0 <= header_len <= caps[0],
    ensures
        torn_bytes(ok, caps, header_len) == sum_range(
            0,
            first_dead as nat,
            |j: int| caps[j] as int,
        ) - (if first_dead > 0 {
            header_len
        } else {
            0
        }) + sum_range(last_dead + 1, (7 - last_dead) as nat, |j: int| caps[j] as int),
{
    assert forall|i: int| 0 <= i < 8 implies (#[trigger] in_top_run(ok, i) <==> i < first_dead) by {
        if i >= first_dead {
            assert(!ok[first_dead]);
        }
    }
    assert forall|i: int| 0 <= i < 8 implies (#[trigger] in_bottom_run(ok, i) <==> i > last_dead) by {
        if i <= last_dead {
            assert(!ok[last_dead]);
        }
    }
    let f = |i: int|
        if in_top_run(ok, i) {
            stripe_bytes(caps, header_len, i)
        } else if in_bottom_run(ok, i) {
            caps[i] as int
        } else {
            0
        };
    let g = |j: int| caps[j] as int;
    let a = first_dead as nat;
    let m = (last_dead + 1 - first_dead) as nat;
    let b = (7 - last_dead) as nat;
    lemma_sum_split(0, a + m, b, f);
    lemma_sum_split(0, a, m, f);
    assert(a + m + b == 8);
    lemma_sum_zero(first_dead, m, f);
    lemma_sum_range_congruent(last_dead + 1, b, f, g);
    if a > 0 {
        lemma_sum_changed(0, a, f, g, 0);
    }
}

/// A header whose first symbol lies among the `count` symbols of frame `seq`
/// announces that frame: the receiver sees a tear exactly when the counter is
/// not the low byte of `seq`. A header without symbols announces frame zero,
/// and without a header there is always a tear.
pub proof fn lemma_header_announces_frame(seq: int, count: u8, first: int, counter: u8)
    requires
        seq >= 0,
        0 <= first < count,
        seq * count + first <= u32::MAX,
    ensures
        sees_tear(
            Some(HeaderFields { esi: (seq * count + first) as u32, count }),
            counter,
        ) <==> counter != seq % 256,
        forall|esi: u32|
            #![trigger sees_tear(Some(HeaderFields { esi, count: 0 }), counter)]
            sees_tear(Some(HeaderFields { esi, count: 0 }), counter) <==> counter != 0,
        sees_tear(None, counter),
{
    lemma_cell_unique(count as int, first, seq);
    assert(0 <= seq * count) by (nonlinear_arith)
        requires
            seq >= 0,
    ;
}

/// Adding the same word twice without carry changes nothing.
proof fn lemma_xor_twice(a: u32, b: u32)
    ensures
        (a ^ b) ^ a == b,
{
    assert((a ^ b) ^ a == b) by (bit_vector);
}

/// The generator of the symbol bytes can be run backwards: a state gives the
/// one before it, and the first state the number of the frame. A byte is the
/// highest of its state.
pub proof fn lemma_filler_backwards(seq: u32, s: u32, i: int)
    requires
        i >= 0,
    ensures
        ((filler_next(s) - 1_013_904_223) * 0xFEE0_58C5) % 0x1_0000_0000 == s,
        (((filler_start(seq) ^ 0x9E37_79B9u32) - 1) * 0xA5CB_9243) % 0x1_0000_0000 == seq,
        filler_state(seq, 0) == filler_start(seq),
        filler_state(seq, (i + 1) as nat) == filler_next(filler_state(seq, i as nat)),
        filler_byte(seq, i) == filler_state(seq, (i + 1) as nat) / 0x100_0000,
{
    let m = 0x1_0000_0000int;
    let p = (s * 1_664_525) % m;
    lemma_unit_mul_undone(m, s as int, 1_664_525, 0xFEE0_58C5, 1657219);
    let carry = (p + 1_013_904_223) / m;
    assert(filler_next(s) == p + 1_013_904_223 - carry * m);
    assert((filler_next(s) - 1_013_904_223) * 0xFEE0_58C5 == p * 0xFEE0_58C5 + m * (-carry
        * 0xFEE0_58C5));
    vstd::arithmetic::div_mod::lemma_mod_multiples_vanish(
        -carry * 0xFEE0_58C5,
        p * 0xFEE0_58C5,
        m,
    );
    let a = seq.wrapping_mul(0x85EB_CA6B).wrapping_add(1);
    let q = (seq * 0x85EB_CA6B) % m;
    lemma_xor_twice(0x9E37_79B9u32, a);
    lemma_unit_mul_undone(m, seq as int, 0x85EB_CA6B, 0xA5CB_9243, 1455126516);
    let over = (q + 1) / m;
    assert(a == q + 1 - over * m);
    assert((a - 1) * 0xA5CB_9243 == q * 0xA5CB_9243 + m * (-over * 0xA5CB_9243));
    vstd::arithmetic::div_mod::lemma_mod_multiples_vanish(-over * 0xA5CB_9243, q * 0xA5CB_9243, m);
    assert((i + 1 - 1) as nat == i as nat);
    let t = filler_state(seq, (i + 1) as nat);
    vstd::arithmetic::power2::lemma2_to64();
    vstd::bits::lemma_u32_shr_is_div(t, 24);
}

/// The capacity of a stripe and its two bytes of checksum take all whole bytes
/// of its cells.
pub proof fn lemma_stripe_filled(rows: int, bpc: int)
    ensures
        8 * (stripe_cap(rows, bpc) + 2) <= rows * 57 * bpc < 8 * (stripe_cap(rows, bpc) + 3),
{
}

/// Symbols are numbered on from frame to frame, and from zero again behind the
/// last of 24 bits.
pub proof fn lemma_symbols_numbered_on(seq: int)
    requires
        seq >= 0,
    ensures
        first_symbol(0) == 0,
        first_symbol(seq + 1) == (first_symbol(seq) + 9) % 0x100_0000,
        0 <= first_symbol(seq) < 0x100_0000,
{
}

/// Payload rows lie one cell apart. The first begins below the quiet zone, the
/// ring and one row of cells more.
pub proof fn lemma_payload_rows_apart(quiet: int, cell: int, row: int)
    ensures
        payload_row_px(quiet, cell, 0) == (quiet + 3) * cell,
        payload_row_px(quiet, cell, row + 1) == payload_row_px(quiet, cell, row) + cell,
{
    assert((quiet + 2 + row + 1 + 1) * cell == (quiet + 2 + row + 1) * cell + cell)
        by (nonlinear_arith);
}

} // verus!
