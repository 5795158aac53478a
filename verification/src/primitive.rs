//! Registers of full period exist for the register lengths in use.

use vstd::arithmetic::power2::*;
use vstd::prelude::*;

use crate::bits::parity;
use crate::lfsr::{
    has_period, is_mask, lemma_run_add, lemma_run_periodic, lemma_run_range, lemma_step_range,
    lfsr_run, lfsr_step, primitive,
};

verus! {

/// Exclusive or of the lowest `n` bits.
spec fn fold(x: u32, n: nat) -> u32
    decreases n,
{
    if n == 0 {
        0
    } else {
        (x & 1) ^ fold(x >> 1, (n - 1) as nat)
    }
}

/// `c` where place `i` of `s` is set, else zero.
spec fn col(s: u32, i: u32, c: u32) -> u32 {
    if (s >> i) & 1 == 1 {
        c
    } else {
        0
    }
}

/// The parity of a short word is the exclusive or of its bits.
proof fn lemma_parity_fold(x: u32, n: nat)
    requires
        x < pow2(n),
    ensures
        parity(x) == fold(x, n),
    decreases n,
{
    if n == 0 {
        lemma2_to64();
    } else {
        lemma_pow2_unfold(n);
        let y = x >> 1;
        let f = parity(y);
        assert(y == x / 2 && x & 1 == x % 2) by (bit_vector)
            requires
                y == x >> 1,
        ;
        lemma_parity_fold(y, (n - 1) as nat);
        assert((x & 1) ^ f == (x % 2 + f) % 2) by (bit_vector)
            requires
                f <= 1,
        ;
    }
}

/// The other factor of a proper divisor.
proof fn lemma_cofactor(n: nat, d: nat) -> (e: nat)
    requires
        0 < d < n,
        n % d == 0,
    ensures
        d * e == n,
        e > 1,
{
    let e = n / d;
    assert(d * e == n && e > 1) by (nonlinear_arith)
        requires
            0 < d < n,
            n % d == 0,
            e == n / d,
    ;
    e
}

/// A small prime that divides a product but not its second factor divides the first.
proof fn lemma_strip(d: nat, e: nat, q: nat, rest: nat) -> (r: nat)
    requires
        q == 3 || q == 5 || q == 7 || q == 11 || q == 13 || q == 17 || q == 31,
        d * e == q * rest,
        e % q != 0,
    ensures
        r * e == rest,
{
    let a = (d % q) as u32;
    let b = (e % q) as u32;
    let c = q as u32;
    assert((a * b) % (c as int) == 0) by {
        vstd::arithmetic::div_mod::lemma_mul_mod_noop(d as int, e as int, q as int);
        vstd::arithmetic::div_mod::lemma_mod_multiples_basic(rest as int, q as int);
        assert(d * e == rest * q) by (nonlinear_arith)
            requires
                d * e == q * rest,
        ;
    }
    assert(a == 0) by (bit_vector)
        requires
            a < c,
            0 < b < c,
            c == 3 || c == 5 || c == 7 || c == 11 || c == 13 || c == 17 || c == 31,
            (a * b) % (c as int) == 0,
    ;
    let r = d / q;
    assert(r * e == rest) by (nonlinear_arith)
        requires
            r == d / q,
            d % q == 0,
            d * e == q * rest,
            q > 0,
    ;
    r
}

/// The only factor of one is one.
proof fn lemma_no_unit_factor(d: nat, e: nat)
    requires
        d * e == 1,
    ensures
        e == 1,
{
    assert(e == 1) by (nonlinear_arith)
        requires
            d * e == 1,
    ;
}

/// A run that comes back after `d` steps comes back after any multiple of `d`.
proof fn lemma_quotient(k: nat, taps: u32, d: nat, e: nat, q: nat, part: nat)
    requires
        d * e == q * part,
        q > 0,
        e % q == 0,
        lfsr_run(k, taps, 1, part) != 1,
    ensures
        lfsr_run(k, taps, 1, d) != 1,
{
    if lfsr_run(k, taps, 1, d) == 1 {
        let c = e / q;
        assert(c * d + 0 == part) by (nonlinear_arith)
            requires
                c == e / q,
                e % q == 0,
                q > 0,
                d * e == q * part,
        ;
        lemma_run_periodic(k, taps, d, c, 0);
        assert(lfsr_run(k, taps, 1, 0) == 1);
    }
}

/// Some number of steps is the period of a register that comes back to 1.
proof fn lemma_some_period(k: nat, taps: u32, n: nat) -> (d: nat)
    requires
        n > 0,
        lfsr_run(k, taps, 1, n) == 1,
    ensures
        has_period(k, taps, d),
        d <= n,
    decreases n,
{
    if has_period(k, taps, n) {
        n
    } else {
        let m = choose|m: nat| 0 < m < n && #[trigger] lfsr_run(k, taps, 1, m) == 1;
        lemma_some_period(k, taps, m)
    }
}

/// A return time none of whose proper divisors is one is the period.
proof fn lemma_exact_period(k: nat, taps: u32, n: nat)
    requires
        n > 0,
        lfsr_run(k, taps, 1, n) == 1,
        forall|d: nat| 0 < d < n && n % d == 0 ==> #[trigger] lfsr_run(k, taps, 1, d) != 1,
    ensures
        has_period(k, taps, n),
{
    let d = lemma_some_period(k, taps, n);
    let c = n / d;
    let r = n % d;
    assert(n == c * d + r) by (nonlinear_arith)
        requires
            c == n / d,
            r == n % d,
            d > 0,
    ;
    lemma_run_periodic(k, taps, d, c, r);
}

/// The mask of full period used for 6 places, and its register step on plain bits.
spec fn step_6(s: u32) -> u32 {
    (s >> 1) | (fold(s & 0x21, 6) << 5)
}

/// 2 steps at once: the columns are the images of the single places.
spec fn leap_6_2(s: u32) -> u32 {
    col(s, 0, 0x30) ^ col(s, 1, 0x20) ^ col(s, 2, 0x1) ^ col(s, 3, 0x2) ^ col(s, 4, 0x4) ^ col(s, 5, 0x38)
}

/// 4 steps at once: the columns are the images of the single places.
spec fn leap_6_4(s: u32) -> u32 {
    col(s, 0, 0x3c) ^ col(s, 1, 0x38) ^ col(s, 2, 0x30) ^ col(s, 3, 0x20) ^ col(s, 4, 0x1) ^ col(s, 5, 0x3e)
}

/// 8 steps at once: the columns are the images of the single places.
spec fn leap_6_8(s: u32) -> u32 {
    col(s, 0, 0x2f) ^ col(s, 1, 0x1f) ^ col(s, 2, 0x3f) ^ col(s, 3, 0x3e) ^ col(s, 4, 0x3c) ^ col(s, 5, 0x17)
}

/// 16 steps at once: the columns are the images of the single places.
spec fn leap_6_16(s: u32) -> u32 {
    col(s, 0, 0x26) ^ col(s, 1, 0xd) ^ col(s, 2, 0x1a) ^ col(s, 3, 0x35) ^ col(s, 4, 0x2a) ^ col(s, 5, 0x33)
}

/// 32 steps at once: the columns are the images of the single places.
spec fn leap_6_32(s: u32) -> u32 {
    col(s, 0, 0x24) ^ col(s, 1, 0x9) ^ col(s, 2, 0x12) ^ col(s, 3, 0x25) ^ col(s, 4, 0xb) ^ col(s, 5, 0x32)
}

proof fn lemma_leaps_6(s: u32)
    by (bit_vector)
    requires
        s < 64,
    ensures
        leap_6_2(s) == step_6(step_6(s)),
        leap_6_4(s) == leap_6_2(leap_6_2(s)),
        leap_6_8(s) == leap_6_4(leap_6_4(s)),
        leap_6_16(s) == leap_6_8(leap_6_8(s)),
        leap_6_32(s) == leap_6_16(leap_6_16(s)),
{
}

/// The mask of full period used for 8 places, and its register step on plain bits.
spec fn step_8(s: u32) -> u32 {
    (s >> 1) | (fold(s & 0x87, 8) << 7)
}

/// 2 steps at once: the columns are the images of the single places.
spec fn leap_8_2(s: u32) -> u32 {
    col(s, 0, 0xc0) ^ col(s, 1, 0x40) ^ col(s, 2, 0x41) ^ col(s, 3, 0x82) ^ col(s, 4, 0x4) ^ col(s, 5, 0x8) ^ col(s, 6, 0x10) ^ col(s, 7, 0xe0)
}

/// 4 steps at once: the columns are the images of the single places.
spec fn leap_8_4(s: u32) -> u32 {
    col(s, 0, 0xf0) ^ col(s, 1, 0x10) ^ col(s, 2, 0xd0) ^ col(s, 3, 0xa0) ^ col(s, 4, 0x41) ^ col(s, 5, 0x82) ^ col(s, 6, 0x4) ^ col(s, 7, 0xf8)
}

/// 8 steps at once: the columns are the images of the single places.
spec fn leap_8_8(s: u32) -> u32 {
    col(s, 0, 0x3f) ^ col(s, 1, 0x41) ^ col(s, 2, 0xbd) ^ col(s, 3, 0x7a) ^ col(s, 4, 0xf4) ^ col(s, 5, 0xe8) ^ col(s, 6, 0xd0) ^ col(s, 7, 0x9f)
}

/// 16 steps at once: the columns are the images of the single places.
spec fn leap_8_16(s: u32) -> u32 {
    col(s, 0, 0xa5) ^ col(s, 1, 0xef) ^ col(s, 2, 0x7b) ^ col(s, 3, 0xf7) ^ col(s, 4, 0xee) ^ col(s, 5, 0xdd) ^ col(s, 6, 0xbb) ^ col(s, 7, 0xd2)
}

/// 32 steps at once: the columns are the images of the single places.
spec fn leap_8_32(s: u32) -> u32 {
    col(s, 0, 0xd1) ^ col(s, 1, 0x72) ^ col(s, 2, 0x35) ^ col(s, 3, 0x6b) ^ col(s, 4, 0xd7) ^ col(s, 5, 0xae) ^ col(s, 6, 0x5c) ^ col(s, 7, 0x68)
}

/// 64 steps at once: the columns are the images of the single places.
spec fn leap_8_64(s: u32) -> u32 {
    col(s, 0, 0x32) ^ col(s, 1, 0x57) ^ col(s, 2, 0x9d) ^ col(s, 3, 0x3a) ^ col(s, 4, 0x75) ^ col(s, 5, 0xea) ^ col(s, 6, 0xd5) ^ col(s, 7, 0x99)
}

/// 128 steps at once: the columns are the images of the single places.
spec fn leap_8_128(s: u32) -> u32 {
    col(s, 0, 0xc8) ^ col(s, 1, 0x58) ^ col(s, 2, 0x79) ^ col(s, 3, 0xf2) ^ col(s, 4, 0xe5) ^ col(s, 5, 0xcb) ^ col(s, 6, 0x96) ^ col(s, 7, 0xe4)
}

proof fn lemma_leaps_8(s: u32)
    by (bit_vector)
    requires
        s < 256,
    ensures
        leap_8_2(s) == step_8(step_8(s)),
        leap_8_4(s) == leap_8_2(leap_8_2(s)),
        leap_8_8(s) == leap_8_4(leap_8_4(s)),
        leap_8_16(s) == leap_8_8(leap_8_8(s)),
        leap_8_32(s) == leap_8_16(leap_8_16(s)),
        leap_8_64(s) == leap_8_32(leap_8_32(s)),
        leap_8_128(s) == leap_8_64(leap_8_64(s)),
{
}

/// The mask of full period used for 10 places, and its register step on plain bits.
spec fn step_10(s: u32) -> u32 {
    (s >> 1) | (fold(s & 0x213, 10) << 9)
}

/// 2 steps at once: the columns are the images of the single places.
spec fn leap_10_2(s: u32) -> u32 {
    col(s, 0, 0x300) ^ col(s, 1, 0x100) ^ col(s, 2, 0x201) ^ col(s, 3, 0x2) ^ col(s, 4, 0x304) ^ col(s, 5, 0x208) ^ col(s, 6, 0x10) ^ col(s, 7, 0x20) ^ col(s, 8, 0x40) ^ col(s, 9, 0x380)
}

/// 4 steps at once: the columns are the images of the single places.
spec fn leap_10_4(s: u32) -> u32 {
    col(s, 0, 0x3c0) ^ col(s, 1, 0x40) ^ col(s, 2, 0x80) ^ col(s, 3, 0x100) ^ col(s, 4, 0x1c1) ^ col(s, 5, 0x382) ^ col(s, 6, 0x304) ^ col(s, 7, 0x208) ^ col(s, 8, 0x10) ^ col(s, 9, 0x3e0)
}

/// 8 steps at once: the columns are the images of the single places.
spec fn leap_10_8(s: u32) -> u32 {
    col(s, 0, 0x2fc) ^ col(s, 1, 0x304) ^ col(s, 2, 0x208) ^ col(s, 3, 0x10) ^ col(s, 4, 0x2dc) ^ col(s, 5, 0x1b8) ^ col(s, 6, 0x370) ^ col(s, 7, 0x2e0) ^ col(s, 8, 0x1c1) ^ col(s, 9, 0x17e)
}

/// 16 steps at once: the columns are the images of the single places.
spec fn leap_10_16(s: u32) -> u32 {
    col(s, 0, 0x192) ^ col(s, 1, 0x2b7) ^ col(s, 2, 0x16e) ^ col(s, 3, 0x2dc) ^ col(s, 4, 0x2a) ^ col(s, 5, 0x55) ^ col(s, 6, 0xab) ^ col(s, 7, 0x156) ^ col(s, 8, 0x2ad) ^ col(s, 9, 0xc9)
}

/// 32 steps at once: the columns are the images of the single places.
spec fn leap_10_32(s: u32) -> u32 {
    col(s, 0, 0x166) ^ col(s, 1, 0x3ab) ^ col(s, 2, 0x356) ^ col(s, 3, 0x2ac) ^ col(s, 4, 0x3e) ^ col(s, 5, 0x7d) ^ col(s, 6, 0xfa) ^ col(s, 7, 0x1f5) ^ col(s, 8, 0x3ea) ^ col(s, 9, 0x2b3)
}

/// 64 steps at once: the columns are the images of the single places.
spec fn leap_10_64(s: u32) -> u32 {
    col(s, 0, 0x390) ^ col(s, 1, 0xb0) ^ col(s, 2, 0x160) ^ col(s, 3, 0x2c1) ^ col(s, 4, 0x212) ^ col(s, 5, 0x25) ^ col(s, 6, 0x4b) ^ col(s, 7, 0x96) ^ col(s, 8, 0x12c) ^ col(s, 9, 0x1c8)
}

/// 128 steps at once: the columns are the images of the single places.
spec fn leap_10_128(s: u32) -> u32 {
    col(s, 0, 0x260) ^ col(s, 1, 0x2a1) ^ col(s, 2, 0x142) ^ col(s, 3, 0x285) ^ col(s, 4, 0x36a) ^ col(s, 5, 0x2d5) ^ col(s, 6, 0x1aa) ^ col(s, 7, 0x354) ^ col(s, 8, 0x2a8) ^ col(s, 9, 0x330)
}

/// 256 steps at once: the columns are the images of the single places.
spec fn leap_10_256(s: u32) -> u32 {
    col(s, 0, 0x4f) ^ col(s, 1, 0xd1) ^ col(s, 2, 0x1a3) ^ col(s, 3, 0x346) ^ col(s, 4, 0x2c3) ^ col(s, 5, 0x186) ^ col(s, 6, 0x30d) ^ col(s, 7, 0x21a) ^ col(s, 8, 0x34) ^ col(s, 9, 0x27)
}

/// 512 steps at once: the columns are the images of the single places.
spec fn leap_10_512(s: u32) -> u32 {
    col(s, 0, 0x176) ^ col(s, 1, 0x39b) ^ col(s, 2, 0x336) ^ col(s, 3, 0x26c) ^ col(s, 4, 0x1ae) ^ col(s, 5, 0x35c) ^ col(s, 6, 0x2b9) ^ col(s, 7, 0x173) ^ col(s, 8, 0x2e6) ^ col(s, 9, 0xbb)
}

proof fn lemma_leaps_10(s: u32)
    by (bit_vector)
    requires
        s < 1024,
    ensures
        leap_10_2(s) == step_10(step_10(s)),
        leap_10_4(s) == leap_10_2(leap_10_2(s)),
        leap_10_8(s) == leap_10_4(leap_10_4(s)),
        leap_10_16(s) == leap_10_8(leap_10_8(s)),
        leap_10_32(s) == leap_10_16(leap_10_16(s)),
        leap_10_64(s) == leap_10_32(leap_10_32(s)),
        leap_10_128(s) == leap_10_64(leap_10_64(s)),
        leap_10_256(s) == leap_10_128(leap_10_128(s)),
        leap_10_512(s) == leap_10_256(leap_10_256(s)),
{
}

/// The mask of full period used for 12 places, and its register step on plain bits.
spec fn step_12(s: u32) -> u32 {
    (s >> 1) | (fold(s & 0x857, 12) << 11)
}

/// 2 steps at once: the columns are the images of the single places.
spec fn leap_12_2(s: u32) -> u32 {
    col(s, 0, 0xc00) ^ col(s, 1, 0x400) ^ col(s, 2, 0x401) ^ col(s, 3, 0x802) ^ col(s, 4, 0xc04) ^ col(s, 5, 0x808) ^ col(s, 6, 0xc10) ^ col(s, 7, 0x820) ^ col(s, 8, 0x40) ^ col(s, 9, 0x80) ^ col(s, 10, 0x100) ^ col(s, 11, 0xe00)
}

/// 4 steps at once: the columns are the images of the single places.
spec fn leap_12_4(s: u32) -> u32 {
    col(s, 0, 0xf00) ^ col(s, 1, 0x100) ^ col(s, 2, 0xd00) ^ col(s, 3, 0xa00) ^ col(s, 4, 0xb01) ^ col(s, 5, 0x602) ^ col(s, 6, 0x304) ^ col(s, 7, 0x608) ^ col(s, 8, 0xc10) ^ col(s, 9, 0x820) ^ col(s, 10, 0x40) ^ col(s, 11, 0xf80)
}

/// 8 steps at once: the columns are the images of the single places.
spec fn leap_12_8(s: u32) -> u32 {
    col(s, 0, 0xbf0) ^ col(s, 1, 0xc10) ^ col(s, 2, 0x3d0) ^ col(s, 3, 0x7a0) ^ col(s, 4, 0x4b0) ^ col(s, 5, 0x960) ^ col(s, 6, 0x930) ^ col(s, 7, 0x260) ^ col(s, 8, 0x4c1) ^ col(s, 9, 0x982) ^ col(s, 10, 0x304) ^ col(s, 11, 0xdf8)
}

/// 16 steps at once: the columns are the images of the single places.
spec fn leap_12_16(s: u32) -> u32 {
    col(s, 0, 0x63b) ^ col(s, 1, 0xa4c) ^ col(s, 2, 0x2a3) ^ col(s, 3, 0x547) ^ col(s, 4, 0xcb4) ^ col(s, 5, 0x969) ^ col(s, 6, 0x4e9) ^ col(s, 7, 0x9d2) ^ col(s, 8, 0x3a4) ^ col(s, 9, 0x749) ^ col(s, 10, 0xe93) ^ col(s, 11, 0xb1d)
}

/// 32 steps at once: the columns are the images of the single places.
spec fn leap_12_32(s: u32) -> u32 {
    col(s, 0, 0x537) ^ col(s, 1, 0xf59) ^ col(s, 2, 0xb85) ^ col(s, 3, 0x70a) ^ col(s, 4, 0xb22) ^ col(s, 5, 0x645) ^ col(s, 6, 0x9bd) ^ col(s, 7, 0x37a) ^ col(s, 8, 0x6f5) ^ col(s, 9, 0xdeb) ^ col(s, 10, 0xbd6) ^ col(s, 11, 0x29b)
}

/// 64 steps at once: the columns are the images of the single places.
spec fn leap_12_64(s: u32) -> u32 {
    col(s, 0, 0x1af) ^ col(s, 1, 0x2f1) ^ col(s, 2, 0x44d) ^ col(s, 3, 0x89b) ^ col(s, 4, 0x99) ^ col(s, 5, 0x132) ^ col(s, 6, 0x3cb) ^ col(s, 7, 0x797) ^ col(s, 8, 0xf2f) ^ col(s, 9, 0xe5e) ^ col(s, 10, 0xcbc) ^ col(s, 11, 0x8d7)
}

/// 128 steps at once: the columns are the images of the single places.
spec fn leap_12_128(s: u32) -> u32 {
    col(s, 0, 0x602) ^ col(s, 1, 0xa06) ^ col(s, 2, 0x20e) ^ col(s, 3, 0x41c) ^ col(s, 4, 0xe3a) ^ col(s, 5, 0xc75) ^ col(s, 6, 0xee8) ^ col(s, 7, 0xdd0) ^ col(s, 8, 0xba0) ^ col(s, 9, 0x740) ^ col(s, 10, 0xe81) ^ col(s, 11, 0xb01)
}

/// 256 steps at once: the columns are the images of the single places.
spec fn leap_12_256(s: u32) -> u32 {
    col(s, 0, 0x3c7) ^ col(s, 1, 0x449) ^ col(s, 2, 0xb54) ^ col(s, 3, 0x6a9) ^ col(s, 4, 0xe95) ^ col(s, 5, 0xd2b) ^ col(s, 6, 0x991) ^ col(s, 7, 0x322) ^ col(s, 8, 0x644) ^ col(s, 9, 0xc89) ^ col(s, 10, 0x912) ^ col(s, 11, 0x1e3)
}

/// 512 steps at once: the columns are the images of the single places.
spec fn leap_12_512(s: u32) -> u32 {
    col(s, 0, 0xca4) ^ col(s, 1, 0x5ed) ^ col(s, 2, 0x77e) ^ col(s, 3, 0xefc) ^ col(s, 4, 0x15c) ^ col(s, 5, 0x2b9) ^ col(s, 6, 0x9d7) ^ col(s, 7, 0x3af) ^ col(s, 8, 0x75e) ^ col(s, 9, 0xebd) ^ col(s, 10, 0xd7b) ^ col(s, 11, 0x652)
}

/// 1024 steps at once: the columns are the images of the single places.
spec fn leap_12_1024(s: u32) -> u32 {
    col(s, 0, 0xd41) ^ col(s, 1, 0x7c2) ^ col(s, 2, 0x2c5) ^ col(s, 3, 0x58b) ^ col(s, 4, 0x657) ^ col(s, 5, 0xcaf) ^ col(s, 6, 0x41f) ^ col(s, 7, 0x83e) ^ col(s, 8, 0x7c) ^ col(s, 9, 0xf8) ^ col(s, 10, 0x1f0) ^ col(s, 11, 0xea0)
}

/// 2048 steps at once: the columns are the images of the single places.
spec fn leap_12_2048(s: u32) -> u32 {
    col(s, 0, 0x672) ^ col(s, 1, 0xa97) ^ col(s, 2, 0x35d) ^ col(s, 3, 0x6ba) ^ col(s, 4, 0xb06) ^ col(s, 5, 0x60c) ^ col(s, 6, 0xa6a) ^ col(s, 7, 0x4d4) ^ col(s, 8, 0x9a9) ^ col(s, 9, 0x352) ^ col(s, 10, 0x6a5) ^ col(s, 11, 0xb39)
}

#[verifier::rlimit(60)]
proof fn lemma_leaps_12_low(s: u32)
    by (bit_vector)
    requires
        s < 4096,
    ensures
        leap_12_2(s) == step_12(step_12(s)),
        leap_12_4(s) == leap_12_2(leap_12_2(s)),
        leap_12_8(s) == leap_12_4(leap_12_4(s)),
{
}

#[verifier::rlimit(60)]
proof fn lemma_leaps_12_mid(s: u32)
    by (bit_vector)
    requires
        s < 4096,
    ensures
        leap_12_16(s) == leap_12_8(leap_12_8(s)),
        leap_12_32(s) == leap_12_16(leap_12_16(s)),
        leap_12_64(s) == leap_12_32(leap_12_32(s)),
        leap_12_128(s) == leap_12_64(leap_12_64(s)),
{
}

#[verifier::rlimit(60)]
proof fn lemma_leaps_12_high(s: u32)
    by (bit_vector)
    requires
        s < 4096,
    ensures
        leap_12_256(s) == leap_12_128(leap_12_128(s)),
        leap_12_512(s) == leap_12_256(leap_12_256(s)),
        leap_12_1024(s) == leap_12_512(leap_12_512(s)),
        leap_12_2048(s) == leap_12_1024(leap_12_1024(s)),
{
}

/// The leaps of the 6-place register are runs.
proof fn lemma_runs_6()
    ensures
        forall|s: u32| s < 64 ==> lfsr_step(6, 0x21, s) == #[trigger] step_6(s),
        forall|s: u32| s < 64 ==> lfsr_run(6, 0x21, s, 2) == #[trigger] leap_6_2(s),
        forall|s: u32| s < 64 ==> lfsr_run(6, 0x21, s, 4) == #[trigger] leap_6_4(s),
        forall|s: u32| s < 64 ==> lfsr_run(6, 0x21, s, 8) == #[trigger] leap_6_8(s),
        forall|s: u32| s < 64 ==> lfsr_run(6, 0x21, s, 16) == #[trigger] leap_6_16(s),
        forall|s: u32| s < 64 ==> lfsr_run(6, 0x21, s, 32) == #[trigger] leap_6_32(s),
{
    lemma2_to64();
    assert forall|s: u32| s < 64 implies lfsr_step(6, 0x21, s) == #[trigger] step_6(s) by {
        assert(s & 0x21 < 64) by (bit_vector)
            requires
                s < 64,
        ;
        lemma_parity_fold(s & 0x21, 6);
    }
    assert forall|s: u32| s < 64 implies lfsr_run(6, 0x21, s, 2) == #[trigger] leap_6_2(s) by {
        lemma_leaps_6(s);
        lemma_step_range(6, 0x21, s);
        reveal_with_fuel(lfsr_run, 3);
        assert(step_6(step_6(s)) == lfsr_step(6, 0x21, lfsr_step(6, 0x21, s)));
    }

    assert forall|s: u32| s < 64 implies lfsr_run(6, 0x21, s, 4) == #[trigger] leap_6_4(s) by {
        lemma_leaps_6(s);
        lemma_run_range(6, 0x21, s, 2);
        lemma_run_add(6, 0x21, s, 2, 2);
        let t = leap_6_2(s);
        assert(lfsr_run(6, 0x21, t, 2) == leap_6_2(t));
    }

    assert forall|s: u32| s < 64 implies lfsr_run(6, 0x21, s, 8) == #[trigger] leap_6_8(s) by {
        lemma_leaps_6(s);
        lemma_run_range(6, 0x21, s, 4);
        lemma_run_add(6, 0x21, s, 4, 4);
        let t = leap_6_4(s);
        assert(lfsr_run(6, 0x21, t, 4) == leap_6_4(t));
    }

    assert forall|s: u32| s < 64 implies lfsr_run(6, 0x21, s, 16) == #[trigger] leap_6_16(s) by {
        lemma_leaps_6(s);
        lemma_run_range(6, 0x21, s, 8);
        lemma_run_add(6, 0x21, s, 8, 8);
        let t = leap_6_8(s);
        assert(lfsr_run(6, 0x21, t, 8) == leap_6_8(t));
    }

    assert forall|s: u32| s < 64 implies lfsr_run(6, 0x21, s, 32) == #[trigger] leap_6_32(s) by {
        lemma_leaps_6(s);
        lemma_run_range(6, 0x21, s, 16);
        lemma_run_add(6, 0x21, s, 16, 16);
        let t = leap_6_16(s);
        assert(lfsr_run(6, 0x21, t, 16) == leap_6_16(t));
    }

}

/// Where some leaps of the 6-place register lead.
proof fn lemma_values_6()
    by (bit_vector)
    ensures
        leap_6_8(0x1) == 0x2f,
        step_6(0x2f) == 0x17,
        leap_6_16(0x1) == 0x26,
        leap_6_4(0x26) == 0x36,
        step_6(0x36) == 0x3b,
        leap_6_32(0x1) == 0x24,
        leap_6_16(0x24) == 0x29,
        leap_6_8(0x29) == 0x6,
        leap_6_4(0x6) == 0x8,
        leap_6_2(0x8) == 0x2,
        step_6(0x2) == 0x1,
{
}

/// A register of 6 places with full period.
pub proof fn lemma_primitive_6()
    ensures
        is_mask(6, 0x21),
        primitive(6, 0x21),
{
    lemma2_to64();
    lemma_runs_6();
    lemma_values_6();
    reveal_with_fuel(lfsr_run, 2);
    assert(lfsr_run(6, 0x21, 1, 0) == 1);
    lemma_run_add(6, 0x21, 1, 0, 8);
    assert(lfsr_run(6, 0x21, 1, 8) == 0x2f);
    lemma_run_add(6, 0x21, 1, 8, 1);
    assert(lfsr_run(6, 0x21, 1, 9) == 0x17);
    lemma_run_add(6, 0x21, 1, 0, 16);
    assert(lfsr_run(6, 0x21, 1, 16) == 0x26);
    lemma_run_add(6, 0x21, 1, 16, 4);
    assert(lfsr_run(6, 0x21, 1, 20) == 0x36);
    lemma_run_add(6, 0x21, 1, 20, 1);
    assert(lfsr_run(6, 0x21, 1, 21) == 0x3b);
    lemma_run_add(6, 0x21, 1, 0, 32);
    assert(lfsr_run(6, 0x21, 1, 32) == 0x24);
    lemma_run_add(6, 0x21, 1, 32, 16);
    assert(lfsr_run(6, 0x21, 1, 48) == 0x29);
    lemma_run_add(6, 0x21, 1, 48, 8);
    assert(lfsr_run(6, 0x21, 1, 56) == 0x6);
    lemma_run_add(6, 0x21, 1, 56, 4);
    assert(lfsr_run(6, 0x21, 1, 60) == 0x8);
    lemma_run_add(6, 0x21, 1, 60, 2);
    assert(lfsr_run(6, 0x21, 1, 62) == 0x2);
    lemma_run_add(6, 0x21, 1, 62, 1);
    assert(lfsr_run(6, 0x21, 1, 63) == 0x1);
    assert forall|d: nat| 0 < d < 63 && 63nat % d == 0 implies #[trigger] lfsr_run(6, 0x21, 1, d) != 1 by {
        let e = lemma_cofactor(63, d);
        if e % 3 == 0 {
            lemma_quotient(6, 0x21, d, e, 3, 21);
        }
        if e % 7 == 0 {
            lemma_quotient(6, 0x21, d, e, 7, 9);
        }
        if e % 3 != 0 && e % 7 != 0 {
            let d1 = lemma_strip(d, e, 7, 9);
            let d2 = lemma_strip(d1, e, 3, 3);
            let d3 = lemma_strip(d2, e, 3, 1);
            lemma_no_unit_factor(d3, e);
        }
    }
    lemma_exact_period(6, 0x21, 63);
}

/// The leaps of the 8-place register are runs.
proof fn lemma_runs_8()
    ensures
        forall|s: u32| s < 256 ==> lfsr_step(8, 0x87, s) == #[trigger] step_8(s),
        forall|s: u32| s < 256 ==> lfsr_run(8, 0x87, s, 2) == #[trigger] leap_8_2(s),
        forall|s: u32| s < 256 ==> lfsr_run(8, 0x87, s, 4) == #[trigger] leap_8_4(s),
        forall|s: u32| s < 256 ==> lfsr_run(8, 0x87, s, 8) == #[trigger] leap_8_8(s),
        forall|s: u32| s < 256 ==> lfsr_run(8, 0x87, s, 16) == #[trigger] leap_8_16(s),
        forall|s: u32| s < 256 ==> lfsr_run(8, 0x87, s, 32) == #[trigger] leap_8_32(s),
        forall|s: u32| s < 256 ==> lfsr_run(8, 0x87, s, 64) == #[trigger] leap_8_64(s),
        forall|s: u32| s < 256 ==> lfsr_run(8, 0x87, s, 128) == #[trigger] leap_8_128(s),
{
    lemma2_to64();
    assert forall|s: u32| s < 256 implies lfsr_step(8, 0x87, s) == #[trigger] step_8(s) by {
        assert(s & 0x87 < 256) by (bit_vector)
            requires
                s < 256,
        ;
        lemma_parity_fold(s & 0x87, 8);
    }
    assert forall|s: u32| s < 256 implies lfsr_run(8, 0x87, s, 2) == #[trigger] leap_8_2(s) by {
        lemma_leaps_8(s);
        lemma_step_range(8, 0x87, s);
        reveal_with_fuel(lfsr_run, 3);
        assert(step_8(step_8(s)) == lfsr_step(8, 0x87, lfsr_step(8, 0x87, s)));
    }

    assert forall|s: u32| s < 256 implies lfsr_run(8, 0x87, s, 4) == #[trigger] leap_8_4(s) by {
        lemma_leaps_8(s);
        lemma_run_range(8, 0x87, s, 2);
        lemma_run_add(8, 0x87, s, 2, 2);
        let t = leap_8_2(s);
        assert(lfsr_run(8, 0x87, t, 2) == leap_8_2(t));
    }

    assert forall|s: u32| s < 256 implies lfsr_run(8, 0x87, s, 8) == #[trigger] leap_8_8(s) by {
        lemma_leaps_8(s);
        lemma_run_range(8, 0x87, s, 4);
        lemma_run_add(8, 0x87, s, 4, 4);
        let t = leap_8_4(s);
        assert(lfsr_run(8, 0x87, t, 4) == leap_8_4(t));
    }

    assert forall|s: u32| s < 256 implies lfsr_run(8, 0x87, s, 16) == #[trigger] leap_8_16(s) by {
        lemma_leaps_8(s);
        lemma_run_range(8, 0x87, s, 8);
        lemma_run_add(8, 0x87, s, 8, 8);
        let t = leap_8_8(s);
        assert(lfsr_run(8, 0x87, t, 8) == leap_8_8(t));
    }

    assert forall|s: u32| s < 256 implies lfsr_run(8, 0x87, s, 32) == #[trigger] leap_8_32(s) by {
        lemma_leaps_8(s);
        lemma_run_range(8, 0x87, s, 16);
        lemma_run_add(8, 0x87, s, 16, 16);
        let t = leap_8_16(s);
        assert(lfsr_run(8, 0x87, t, 16) == leap_8_16(t));
    }

    assert forall|s: u32| s < 256 implies lfsr_run(8, 0x87, s, 64) == #[trigger] leap_8_64(s) by {
        lemma_leaps_8(s);
        lemma_run_range(8, 0x87, s, 32);
        lemma_run_add(8, 0x87, s, 32, 32);
        let t = leap_8_32(s);
        assert(lfsr_run(8, 0x87, t, 32) == leap_8_32(t));
    }

    assert forall|s: u32| s < 256 implies lfsr_run(8, 0x87, s, 128) == #[trigger] leap_8_128(s) by {
        lemma_leaps_8(s);
        lemma_run_range(8, 0x87, s, 64);
        lemma_run_add(8, 0x87, s, 64, 64);
        let t = leap_8_64(s);
        assert(lfsr_run(8, 0x87, t, 64) == leap_8_64(t));
    }

}

/// Where some leaps of the 8-place register lead.
proof fn lemma_values_8()
    by (bit_vector)
    ensures
        leap_8_8(0x1) == 0x3f,
        leap_8_4(0x3f) == 0x53,
        leap_8_2(0x53) == 0x94,
        step_8(0x94) == 0x4a,
        leap_8_32(0x1) == 0xd1,
        leap_8_16(0xd1) == 0x22,
        leap_8_2(0x22) == 0x48,
        step_8(0x48) == 0x24,
        leap_8_64(0x1) == 0x32,
        leap_8_16(0x32) == 0xdc,
        leap_8_4(0xdc) == 0xcd,
        step_8(0xcd) == 0xe6,
        leap_8_128(0x1) == 0xc8,
        leap_8_64(0xc8) == 0x76,
        leap_8_32(0x76) == 0x62,
        leap_8_16(0x62) == 0x89,
        leap_8_8(0x89) == 0xda,
        leap_8_4(0xda) == 0xd,
        leap_8_2(0xd) == 0x3,
        step_8(0x3) == 0x1,
{
}

/// A register of 8 places with full period.
pub proof fn lemma_primitive_8()
    ensures
        is_mask(8, 0x87),
        primitive(8, 0x87),
{
    lemma2_to64();
    lemma_runs_8();
    lemma_values_8();
    reveal_with_fuel(lfsr_run, 2);
    assert(lfsr_run(8, 0x87, 1, 0) == 1);
    lemma_run_add(8, 0x87, 1, 0, 8);
    assert(lfsr_run(8, 0x87, 1, 8) == 0x3f);
    lemma_run_add(8, 0x87, 1, 8, 4);
    assert(lfsr_run(8, 0x87, 1, 12) == 0x53);
    lemma_run_add(8, 0x87, 1, 12, 2);
    assert(lfsr_run(8, 0x87, 1, 14) == 0x94);
    lemma_run_add(8, 0x87, 1, 14, 1);
    assert(lfsr_run(8, 0x87, 1, 15) == 0x4a);
    lemma_run_add(8, 0x87, 1, 0, 32);
    assert(lfsr_run(8, 0x87, 1, 32) == 0xd1);
    lemma_run_add(8, 0x87, 1, 32, 16);
    assert(lfsr_run(8, 0x87, 1, 48) == 0x22);
    lemma_run_add(8, 0x87, 1, 48, 2);
    assert(lfsr_run(8, 0x87, 1, 50) == 0x48);
    lemma_run_add(8, 0x87, 1, 50, 1);
    assert(lfsr_run(8, 0x87, 1, 51) == 0x24);
    lemma_run_add(8, 0x87, 1, 0, 64);
    assert(lfsr_run(8, 0x87, 1, 64) == 0x32);
    lemma_run_add(8, 0x87, 1, 64, 16);
    assert(lfsr_run(8, 0x87, 1, 80) == 0xdc);
    lemma_run_add(8, 0x87, 1, 80, 4);
    assert(lfsr_run(8, 0x87, 1, 84) == 0xcd);
    lemma_run_add(8, 0x87, 1, 84, 1);
    assert(lfsr_run(8, 0x87, 1, 85) == 0xe6);
    lemma_run_add(8, 0x87, 1, 0, 128);
    assert(lfsr_run(8, 0x87, 1, 128) == 0xc8);
    lemma_run_add(8, 0x87, 1, 128, 64);
    assert(lfsr_run(8, 0x87, 1, 192) == 0x76);
    lemma_run_add(8, 0x87, 1, 192, 32);
    assert(lfsr_run(8, 0x87, 1, 224) == 0x62);
    lemma_run_add(8, 0x87, 1, 224, 16);
    assert(lfsr_run(8, 0x87, 1, 240) == 0x89);
    lemma_run_add(8, 0x87, 1, 240, 8);
    assert(lfsr_run(8, 0x87, 1, 248) == 0xda);
    lemma_run_add(8, 0x87, 1, 248, 4);
    assert(lfsr_run(8, 0x87, 1, 252) == 0xd);
    lemma_run_add(8, 0x87, 1, 252, 2);
    assert(lfsr_run(8, 0x87, 1, 254) == 0x3);
    lemma_run_add(8, 0x87, 1, 254, 1);
    assert(lfsr_run(8, 0x87, 1, 255) == 0x1);
    assert forall|d: nat| 0 < d < 255 && 255nat % d == 0 implies #[trigger] lfsr_run(8, 0x87, 1, d) != 1 by {
        let e = lemma_cofactor(255, d);
        if e % 3 == 0 {
            lemma_quotient(8, 0x87, d, e, 3, 85);
        }
        if e % 5 == 0 {
            lemma_quotient(8, 0x87, d, e, 5, 51);
        }
        if e % 17 == 0 {
            lemma_quotient(8, 0x87, d, e, 17, 15);
        }
        if e % 3 != 0 && e % 5 != 0 && e % 17 != 0 {
            let d1 = lemma_strip(d, e, 17, 15);
            let d2 = lemma_strip(d1, e, 5, 3);
            let d3 = lemma_strip(d2, e, 3, 1);
            lemma_no_unit_factor(d3, e);
        }
    }
    lemma_exact_period(8, 0x87, 255);
}

/// The leaps of the 10-place register are runs.
proof fn lemma_runs_10()
    ensures
        forall|s: u32| s < 1024 ==> lfsr_step(10, 0x213, s) == #[trigger] step_10(s),
        forall|s: u32| s < 1024 ==> lfsr_run(10, 0x213, s, 2) == #[trigger] leap_10_2(s),
        forall|s: u32| s < 1024 ==> lfsr_run(10, 0x213, s, 4) == #[trigger] leap_10_4(s),
        forall|s: u32| s < 1024 ==> lfsr_run(10, 0x213, s, 8) == #[trigger] leap_10_8(s),
        forall|s: u32| s < 1024 ==> lfsr_run(10, 0x213, s, 16) == #[trigger] leap_10_16(s),
        forall|s: u32| s < 1024 ==> lfsr_run(10, 0x213, s, 32) == #[trigger] leap_10_32(s),
        forall|s: u32| s < 1024 ==> lfsr_run(10, 0x213, s, 64) == #[trigger] leap_10_64(s),
        forall|s: u32| s < 1024 ==> lfsr_run(10, 0x213, s, 128) == #[trigger] leap_10_128(s),
        forall|s: u32| s < 1024 ==> lfsr_run(10, 0x213, s, 256) == #[trigger] leap_10_256(s),
        forall|s: u32| s < 1024 ==> lfsr_run(10, 0x213, s, 512) == #[trigger] leap_10_512(s),
{
    lemma2_to64();
    assert forall|s: u32| s < 1024 implies lfsr_step(10, 0x213, s) == #[trigger] step_10(s) by {
        assert(s & 0x213 < 1024) by (bit_vector)
            requires
                s < 1024,
        ;
        lemma_parity_fold(s & 0x213, 10);
    }
    assert forall|s: u32| s < 1024 implies lfsr_run(10, 0x213, s, 2) == #[trigger] leap_10_2(s) by {
        lemma_leaps_10(s);
        lemma_step_range(10, 0x213, s);
        reveal_with_fuel(lfsr_run, 3);
        assert(step_10(step_10(s)) == lfsr_step(10, 0x213, lfsr_step(10, 0x213, s)));
    }

    assert forall|s: u32| s < 1024 implies lfsr_run(10, 0x213, s, 4) == #[trigger] leap_10_4(s) by {
        lemma_leaps_10(s);
        lemma_run_range(10, 0x213, s, 2);
        lemma_run_add(10, 0x213, s, 2, 2);
        let t = leap_10_2(s);
        assert(lfsr_run(10, 0x213, t, 2) == leap_10_2(t));
    }

    assert forall|s: u32| s < 1024 implies lfsr_run(10, 0x213, s, 8) == #[trigger] leap_10_8(s) by {
        lemma_leaps_10(s);
        lemma_run_range(10, 0x213, s, 4);
        lemma_run_add(10, 0x213, s, 4, 4);
        let t = leap_10_4(s);
        assert(lfsr_run(10, 0x213, t, 4) == leap_10_4(t));
    }

    assert forall|s: u32| s < 1024 implies lfsr_run(10, 0x213, s, 16) == #[trigger] leap_10_16(s) by {
        lemma_leaps_10(s);
        lemma_run_range(10, 0x213, s, 8);
        lemma_run_add(10, 0x213, s, 8, 8);
        let t = leap_10_8(s);
        assert(lfsr_run(10, 0x213, t, 8) == leap_10_8(t));
    }

    assert forall|s: u32| s < 1024 implies lfsr_run(10, 0x213, s, 32) == #[trigger] leap_10_32(s) by {
        lemma_leaps_10(s);
        lemma_run_range(10, 0x213, s, 16);
        lemma_run_add(10, 0x213, s, 16, 16);
        let t = leap_10_16(s);
        assert(lfsr_run(10, 0x213, t, 16) == leap_10_16(t));
    }

    assert forall|s: u32| s < 1024 implies lfsr_run(10, 0x213, s, 64) == #[trigger] leap_10_64(s) by {
        lemma_leaps_10(s);
        lemma_run_range(10, 0x213, s, 32);
        lemma_run_add(10, 0x213, s, 32, 32);
        let t = leap_10_32(s);
        assert(lfsr_run(10, 0x213, t, 32) == leap_10_32(t));
    }

    assert forall|s: u32| s < 1024 implies lfsr_run(10, 0x213, s, 128) == #[trigger] leap_10_128(s) by {
        lemma_leaps_10(s);
        lemma_run_range(10, 0x213, s, 64);
        lemma_run_add(10, 0x213, s, 64, 64);
        let t = leap_10_64(s);
        assert(lfsr_run(10, 0x213, t, 64) == leap_10_64(t));
    }

    assert forall|s: u32| s < 1024 implies lfsr_run(10, 0x213, s, 256) == #[trigger] leap_10_256(s) by {
        lemma_leaps_10(s);
        lemma_run_range(10, 0x213, s, 128);
        lemma_run_add(10, 0x213, s, 128, 128);
        let t = leap_10_128(s);
        assert(lfsr_run(10, 0x213, t, 128) == leap_10_128(t));
    }

    assert forall|s: u32| s < 1024 implies lfsr_run(10, 0x213, s, 512) == #[trigger] leap_10_512(s) by {
        lemma_leaps_10(s);
        lemma_run_range(10, 0x213, s, 256);
        lemma_run_add(10, 0x213, s, 256, 256);
        let t = leap_10_256(s);
        assert(lfsr_run(10, 0x213, t, 256) == leap_10_256(t));
    }

}

/// Where some leaps of the 10-place register lead.
proof fn lemma_values_10()
    by (bit_vector)
    ensures
        leap_10_32(0x1) == 0x166,
        step_10(0x166) == 0x2b3,
        leap_10_64(0x1) == 0x390,
        leap_10_16(0x390) == 0x318,
        leap_10_8(0x318) == 0x273,
        leap_10_4(0x273) == 0x127,
        step_10(0x127) == 0x93,
        leap_10_256(0x1) == 0x4f,
        leap_10_64(0x4f) == 0xca,
        leap_10_16(0xca) == 0x196,
        leap_10_4(0x196) == 0x319,
        step_10(0x319) == 0x38c,
        leap_10_512(0x1) == 0x176,
        leap_10_256(0x176) == 0x10e,
        leap_10_128(0x10e) == 0x3ce,
        leap_10_64(0x3ce) == 0x328,
        leap_10_32(0x328) == 0x388,
        leap_10_16(0x388) == 0x1ee,
        leap_10_8(0x1ee) == 0xf5,
        leap_10_4(0xf5) == 0xf,
        leap_10_2(0xf) == 0x3,
        step_10(0x3) == 0x1,
{
}

/// A register of 10 places with full period.
pub proof fn lemma_primitive_10()
    ensures
        is_mask(10, 0x213),
        primitive(10, 0x213),
{
    lemma2_to64();
    lemma_runs_10();
    lemma_values_10();
    reveal_with_fuel(lfsr_run, 2);
    assert(lfsr_run(10, 0x213, 1, 0) == 1);
    lemma_run_add(10, 0x213, 1, 0, 32);
    assert(lfsr_run(10, 0x213, 1, 32) == 0x166);
    lemma_run_add(10, 0x213, 1, 32, 1);
    assert(lfsr_run(10, 0x213, 1, 33) == 0x2b3);
    lemma_run_add(10, 0x213, 1, 0, 64);
    assert(lfsr_run(10, 0x213, 1, 64) == 0x390);
    lemma_run_add(10, 0x213, 1, 64, 16);
    assert(lfsr_run(10, 0x213, 1, 80) == 0x318);
    lemma_run_add(10, 0x213, 1, 80, 8);
    assert(lfsr_run(10, 0x213, 1, 88) == 0x273);
    lemma_run_add(10, 0x213, 1, 88, 4);
    assert(lfsr_run(10, 0x213, 1, 92) == 0x127);
    lemma_run_add(10, 0x213, 1, 92, 1);
    assert(lfsr_run(10, 0x213, 1, 93) == 0x93);
    lemma_run_add(10, 0x213, 1, 0, 256);
    assert(lfsr_run(10, 0x213, 1, 256) == 0x4f);
    lemma_run_add(10, 0x213, 1, 256, 64);
    assert(lfsr_run(10, 0x213, 1, 320) == 0xca);
    lemma_run_add(10, 0x213, 1, 320, 16);
    assert(lfsr_run(10, 0x213, 1, 336) == 0x196);
    lemma_run_add(10, 0x213, 1, 336, 4);
    assert(lfsr_run(10, 0x213, 1, 340) == 0x319);
    lemma_run_add(10, 0x213, 1, 340, 1);
    assert(lfsr_run(10, 0x213, 1, 341) == 0x38c);
    lemma_run_add(10, 0x213, 1, 0, 512);
    assert(lfsr_run(10, 0x213, 1, 512) == 0x176);
    lemma_run_add(10, 0x213, 1, 512, 256);
    assert(lfsr_run(10, 0x213, 1, 768) == 0x10e);
    lemma_run_add(10, 0x213, 1, 768, 128);
    assert(lfsr_run(10, 0x213, 1, 896) == 0x3ce);
    lemma_run_add(10, 0x213, 1, 896, 64);
    assert(lfsr_run(10, 0x213, 1, 960) == 0x328);
    lemma_run_add(10, 0x213, 1, 960, 32);
    assert(lfsr_run(10, 0x213, 1, 992) == 0x388);
    lemma_run_add(10, 0x213, 1, 992, 16);
    assert(lfsr_run(10, 0x213, 1, 1008) == 0x1ee);
    lemma_run_add(10, 0x213, 1, 1008, 8);
    assert(lfsr_run(10, 0x213, 1, 1016) == 0xf5);
    lemma_run_add(10, 0x213, 1, 1016, 4);
    assert(lfsr_run(10, 0x213, 1, 1020) == 0xf);
    lemma_run_add(10, 0x213, 1, 1020, 2);
    assert(lfsr_run(10, 0x213, 1, 1022) == 0x3);
    lemma_run_add(10, 0x213, 1, 1022, 1);
    assert(lfsr_run(10, 0x213, 1, 1023) == 0x1);
    assert forall|d: nat| 0 < d < 1023 && 1023nat % d == 0 implies #[trigger] lfsr_run(10, 0x213, 1, d) != 1 by {
        let e = lemma_cofactor(1023, d);
        if e % 3 == 0 {
            lemma_quotient(10, 0x213, d, e, 3, 341);
        }
        if e % 11 == 0 {
            lemma_quotient(10, 0x213, d, e, 11, 93);
        }
        if e % 31 == 0 {
            lemma_quotient(10, 0x213, d, e, 31, 33);
        }
        if e % 3 != 0 && e % 11 != 0 && e % 31 != 0 {
            let d1 = lemma_strip(d, e, 31, 33);
            let d2 = lemma_strip(d1, e, 11, 3);
            let d3 = lemma_strip(d2, e, 3, 1);
            lemma_no_unit_factor(d3, e);
        }
    }
    lemma_exact_period(10, 0x213, 1023);
}

/// The leaps of the 12-place register are runs.
proof fn lemma_runs_12()
    ensures
        forall|s: u32| s < 4096 ==> lfsr_step(12, 0x857, s) == #[trigger] step_12(s),
        forall|s: u32| s < 4096 ==> lfsr_run(12, 0x857, s, 2) == #[trigger] leap_12_2(s),
        forall|s: u32| s < 4096 ==> lfsr_run(12, 0x857, s, 4) == #[trigger] leap_12_4(s),
        forall|s: u32| s < 4096 ==> lfsr_run(12, 0x857, s, 8) == #[trigger] leap_12_8(s),
        forall|s: u32| s < 4096 ==> lfsr_run(12, 0x857, s, 16) == #[trigger] leap_12_16(s),
        forall|s: u32| s < 4096 ==> lfsr_run(12, 0x857, s, 32) == #[trigger] leap_12_32(s),
        forall|s: u32| s < 4096 ==> lfsr_run(12, 0x857, s, 64) == #[trigger] leap_12_64(s),
        forall|s: u32| s < 4096 ==> lfsr_run(12, 0x857, s, 128) == #[trigger] leap_12_128(s),
        forall|s: u32| s < 4096 ==> lfsr_run(12, 0x857, s, 256) == #[trigger] leap_12_256(s),
        forall|s: u32| s < 4096 ==> lfsr_run(12, 0x857, s, 512) == #[trigger] leap_12_512(s),
        forall|s: u32| s < 4096 ==> lfsr_run(12, 0x857, s, 1024) == #[trigger] leap_12_1024(s),
        forall|s: u32| s < 4096 ==> lfsr_run(12, 0x857, s, 2048) == #[trigger] leap_12_2048(s),
{
    lemma2_to64();
    assert forall|s: u32| s < 4096 implies lfsr_step(12, 0x857, s) == #[trigger] step_12(s) by {
        assert(s & 0x857 < 4096) by (bit_vector)
            requires
                s < 4096,
        ;
        lemma_parity_fold(s & 0x857, 12);
    }
    assert forall|s: u32| s < 4096 implies lfsr_run(12, 0x857, s, 2) == #[trigger] leap_12_2(s) by {
        lemma_leaps_12_low(s);
        lemma_leaps_12_mid(s);
        lemma_leaps_12_high(s);
        lemma_step_range(12, 0x857, s);
        reveal_with_fuel(lfsr_run, 3);
        assert(step_12(step_12(s)) == lfsr_step(12, 0x857, lfsr_step(12, 0x857, s)));
    }

    assert forall|s: u32| s < 4096 implies lfsr_run(12, 0x857, s, 4) == #[trigger] leap_12_4(s) by {
        lemma_leaps_12_low(s);
        lemma_leaps_12_mid(s);
        lemma_leaps_12_high(s);
        lemma_run_range(12, 0x857, s, 2);
        lemma_run_add(12, 0x857, s, 2, 2);
        let t = leap_12_2(s);
        assert(lfsr_run(12, 0x857, t, 2) == leap_12_2(t));
    }

    assert forall|s: u32| s < 4096 implies lfsr_run(12, 0x857, s, 8) == #[trigger] leap_12_8(s) by {
        lemma_leaps_12_low(s);
        lemma_leaps_12_mid(s);
        lemma_leaps_12_high(s);
        lemma_run_range(12, 0x857, s, 4);
        lemma_run_add(12, 0x857, s, 4, 4);
        let t = leap_12_4(s);
        assert(lfsr_run(12, 0x857, t, 4) == leap_12_4(t));
    }

    assert forall|s: u32| s < 4096 implies lfsr_run(12, 0x857, s, 16) == #[trigger] leap_12_16(s) by {
        lemma_leaps_12_low(s);
        lemma_leaps_12_mid(s);
        lemma_leaps_12_high(s);
        lemma_run_range(12, 0x857, s, 8);
        lemma_run_add(12, 0x857, s, 8, 8);
        let t = leap_12_8(s);
        assert(lfsr_run(12, 0x857, t, 8) == leap_12_8(t));
    }

    assert forall|s: u32| s < 4096 implies lfsr_run(12, 0x857, s, 32) == #[trigger] leap_12_32(s) by {
        lemma_leaps_12_low(s);
        lemma_leaps_12_mid(s);
        lemma_leaps_12_high(s);
        lemma_run_range(12, 0x857, s, 16);
        lemma_run_add(12, 0x857, s, 16, 16);
        let t = leap_12_16(s);
        assert(lfsr_run(12, 0x857, t, 16) == leap_12_16(t));
    }

    assert forall|s: u32| s < 4096 implies lfsr_run(12, 0x857, s, 64) == #[trigger] leap_12_64(s) by {
        lemma_leaps_12_low(s);
        lemma_leaps_12_mid(s);
        lemma_leaps_12_high(s);
        lemma_run_range(12, 0x857, s, 32);
        lemma_run_add(12, 0x857, s, 32, 32);
        let t = leap_12_32(s);
        assert(lfsr_run(12, 0x857, t, 32) == leap_12_32(t));
    }

    assert forall|s: u32| s < 4096 implies lfsr_run(12, 0x857, s, 128) == #[trigger] leap_12_128(s) by {
        lemma_leaps_12_low(s);
        lemma_leaps_12_mid(s);
        lemma_leaps_12_high(s);
        lemma_run_range(12, 0x857, s, 64);
        lemma_run_add(12, 0x857, s, 64, 64);
        let t = leap_12_64(s);
        assert(lfsr_run(12, 0x857, t, 64) == leap_12_64(t));
    }

    assert forall|s: u32| s < 4096 implies lfsr_run(12, 0x857, s, 256) == #[trigger] leap_12_256(s) by {
        lemma_leaps_12_low(s);
        lemma_leaps_12_mid(s);
        lemma_leaps_12_high(s);
        lemma_run_range(12, 0x857, s, 128);
        lemma_run_add(12, 0x857, s, 128, 128);
        let t = leap_12_128(s);
        assert(lfsr_run(12, 0x857, t, 128) == leap_12_128(t));
    }

    assert forall|s: u32| s < 4096 implies lfsr_run(12, 0x857, s, 512) == #[trigger] leap_12_512(s) by {
        lemma_leaps_12_low(s);
        lemma_leaps_12_mid(s);
        lemma_leaps_12_high(s);
        lemma_run_range(12, 0x857, s, 256);
        lemma_run_add(12, 0x857, s, 256, 256);
        let t = leap_12_256(s);
        assert(lfsr_run(12, 0x857, t, 256) == leap_12_256(t));
    }

    assert forall|s: u32| s < 4096 implies lfsr_run(12, 0x857, s, 1024) == #[trigger] leap_12_1024(s) by {
        lemma_leaps_12_low(s);
        lemma_leaps_12_mid(s);
        lemma_leaps_12_high(s);
        lemma_run_range(12, 0x857, s, 512);
        lemma_run_add(12, 0x857, s, 512, 512);
        let t = leap_12_512(s);
        assert(lfsr_run(12, 0x857, t, 512) == leap_12_512(t));
    }

    assert forall|s: u32| s < 4096 implies lfsr_run(12, 0x857, s, 2048) == #[trigger] leap_12_2048(s) by {
        lemma_leaps_12_low(s);
        lemma_leaps_12_mid(s);
        lemma_leaps_12_high(s);
        lemma_run_range(12, 0x857, s, 1024);
        lemma_run_add(12, 0x857, s, 1024, 1024);
        let t = leap_12_1024(s);
        assert(lfsr_run(12, 0x857, t, 1024) == leap_12_1024(t));
    }

}

/// Where some leaps of the 12-place register lead.
proof fn lemma_values_12()
    by (bit_vector)
    ensures
        leap_12_256(0x1) == 0x3c7,
        leap_12_32(0x3c7) == 0x32,
        leap_12_16(0x32) == 0xf91,
        leap_12_8(0xf91) == 0xe9f,
        leap_12_2(0xe9f) == 0xfa7,
        step_12(0xfa7) == 0x7d3,
        leap_12_512(0x1) == 0xca4,
        leap_12_64(0xca4) == 0x683,
        leap_12_8(0x683) == 0xf06,
        step_12(0xf06) == 0xf83,
        leap_12_256(0xca4) == 0xdac,
        leap_12_32(0xdac) == 0x608,
        leap_12_16(0x608) == 0xc9d,
        leap_12_2(0xc9d) == 0xb27,
        step_12(0xb27) == 0x593,
        leap_12_1024(0x1) == 0xd41,
        leap_12_256(0xd41) == 0x4e3,
        leap_12_64(0x4e3) == 0xa8c,
        leap_12_16(0xa8c) == 0x262,
        leap_12_4(0x262) == 0xc26,
        step_12(0xc26) == 0xe13,
        leap_12_2048(0x1) == 0x672,
        leap_12_1024(0x672) == 0x82d,
        leap_12_512(0x82d) == 0x1cd,
        leap_12_256(0x1cd) == 0x2cd,
        leap_12_128(0x2cd) == 0x468,
        leap_12_64(0x468) == 0x6de,
        leap_12_32(0x6de) == 0x40e,
        leap_12_16(0x40e) == 0x33b,
        leap_12_8(0x33b) == 0xd3,
        leap_12_4(0xd3) == 0xd,
        leap_12_2(0xd) == 0x3,
        step_12(0x3) == 0x1,
{
}

/// A register of 12 places with full period.
pub proof fn lemma_primitive_12()
    ensures
        is_mask(12, 0x857),
        primitive(12, 0x857),
{
    lemma2_to64();
    lemma_runs_12();
    lemma_values_12();
    reveal_with_fuel(lfsr_run, 2);
    assert(lfsr_run(12, 0x857, 1, 0) == 1);
    lemma_run_add(12, 0x857, 1, 0, 256);
    assert(lfsr_run(12, 0x857, 1, 256) == 0x3c7);
    lemma_run_add(12, 0x857, 1, 256, 32);
    assert(lfsr_run(12, 0x857, 1, 288) == 0x32);
    lemma_run_add(12, 0x857, 1, 288, 16);
    assert(lfsr_run(12, 0x857, 1, 304) == 0xf91);
    lemma_run_add(12, 0x857, 1, 304, 8);
    assert(lfsr_run(12, 0x857, 1, 312) == 0xe9f);
    lemma_run_add(12, 0x857, 1, 312, 2);
    assert(lfsr_run(12, 0x857, 1, 314) == 0xfa7);
    lemma_run_add(12, 0x857, 1, 314, 1);
    assert(lfsr_run(12, 0x857, 1, 315) == 0x7d3);
    lemma_run_add(12, 0x857, 1, 0, 512);
    assert(lfsr_run(12, 0x857, 1, 512) == 0xca4);
    lemma_run_add(12, 0x857, 1, 512, 64);
    assert(lfsr_run(12, 0x857, 1, 576) == 0x683);
    lemma_run_add(12, 0x857, 1, 576, 8);
    assert(lfsr_run(12, 0x857, 1, 584) == 0xf06);
    lemma_run_add(12, 0x857, 1, 584, 1);
    assert(lfsr_run(12, 0x857, 1, 585) == 0xf83);
    lemma_run_add(12, 0x857, 1, 512, 256);
    assert(lfsr_run(12, 0x857, 1, 768) == 0xdac);
    lemma_run_add(12, 0x857, 1, 768, 32);
    assert(lfsr_run(12, 0x857, 1, 800) == 0x608);
    lemma_run_add(12, 0x857, 1, 800, 16);
    assert(lfsr_run(12, 0x857, 1, 816) == 0xc9d);
    lemma_run_add(12, 0x857, 1, 816, 2);
    assert(lfsr_run(12, 0x857, 1, 818) == 0xb27);
    lemma_run_add(12, 0x857, 1, 818, 1);
    assert(lfsr_run(12, 0x857, 1, 819) == 0x593);
    lemma_run_add(12, 0x857, 1, 0, 1024);
    assert(lfsr_run(12, 0x857, 1, 1024) == 0xd41);
    lemma_run_add(12, 0x857, 1, 1024, 256);
    assert(lfsr_run(12, 0x857, 1, 1280) == 0x4e3);
    lemma_run_add(12, 0x857, 1, 1280, 64);
    assert(lfsr_run(12, 0x857, 1, 1344) == 0xa8c);
    lemma_run_add(12, 0x857, 1, 1344, 16);
    assert(lfsr_run(12, 0x857, 1, 1360) == 0x262);
    lemma_run_add(12, 0x857, 1, 1360, 4);
    assert(lfsr_run(12, 0x857, 1, 1364) == 0xc26);
    lemma_run_add(12, 0x857, 1, 1364, 1);
    assert(lfsr_run(12, 0x857, 1, 1365) == 0xe13);
    lemma_run_add(12, 0x857, 1, 0, 2048);
    assert(lfsr_run(12, 0x857, 1, 2048) == 0x672);
    lemma_run_add(12, 0x857, 1, 2048, 1024);
    assert(lfsr_run(12, 0x857, 1, 3072) == 0x82d);
    lemma_run_add(12, 0x857, 1, 3072, 512);
    assert(lfsr_run(12, 0x857, 1, 3584) == 0x1cd);
    lemma_run_add(12, 0x857, 1, 3584, 256);
    assert(lfsr_run(12, 0x857, 1, 3840) == 0x2cd);
    lemma_run_add(12, 0x857, 1, 3840, 128);
    assert(lfsr_run(12, 0x857, 1, 3968) == 0x468);
    lemma_run_add(12, 0x857, 1, 3968, 64);
    assert(lfsr_run(12, 0x857, 1, 4032) == 0x6de);
    lemma_run_add(12, 0x857, 1, 4032, 32);
    assert(lfsr_run(12, 0x857, 1, 4064) == 0x40e);
    lemma_run_add(12, 0x857, 1, 4064, 16);
    assert(lfsr_run(12, 0x857, 1, 4080) == 0x33b);
    lemma_run_add(12, 0x857, 1, 4080, 8);
    assert(lfsr_run(12, 0x857, 1, 4088) == 0xd3);
    lemma_run_add(12, 0x857, 1, 4088, 4);
    assert(lfsr_run(12, 0x857, 1, 4092) == 0xd);
    lemma_run_add(12, 0x857, 1, 4092, 2);
    assert(lfsr_run(12, 0x857, 1, 4094) == 0x3);
    lemma_run_add(12, 0x857, 1, 4094, 1);
    assert(lfsr_run(12, 0x857, 1, 4095) == 0x1);
    assert forall|d: nat| 0 < d < 4095 && 4095nat % d == 0 implies #[trigger] lfsr_run(12, 0x857, 1, d) != 1 by {
        let e = lemma_cofactor(4095, d);
        if e % 3 == 0 {
            lemma_quotient(12, 0x857, d, e, 3, 1365);
        }
        if e % 5 == 0 {
            lemma_quotient(12, 0x857, d, e, 5, 819);
        }
        if e % 7 == 0 {
            lemma_quotient(12, 0x857, d, e, 7, 585);
        }
        if e % 13 == 0 {
            lemma_quotient(12, 0x857, d, e, 13, 315);
        }
        if e % 3 != 0 && e % 5 != 0 && e % 7 != 0 && e % 13 != 0 {
            let d1 = lemma_strip(d, e, 13, 315);
            let d2 = lemma_strip(d1, e, 7, 45);
            let d3 = lemma_strip(d2, e, 5, 9);
            let d4 = lemma_strip(d3, e, 3, 3);
            let d5 = lemma_strip(d4, e, 3, 1);
            lemma_no_unit_factor(d5, e);
        }
    }
    lemma_exact_period(12, 0x857, 4095);
}

} // verus!
