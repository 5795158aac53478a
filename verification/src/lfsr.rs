//! Shift registers with linear feedback and the binary sequences of maximal
//! period that they generate.

use vstd::arithmetic::power2::*;
use vstd::prelude::*;

use crate::bits::{count_ones, lemma_last_bit, lemma_parity_xor, parity, popcount};
use crate::primitive;
use crate::sums::{
    lemma_all_present, lemma_sum_over_indices, lemma_sum_permuted, lemma_sum_range_congruent,
    lemma_sum_range_negated, sum_range,
};

verus! {

/// One step of a Fibonacci register of `k` places: shift down, and feed the
/// parity of the tapped places in at the top.
pub open spec fn lfsr_step(k: nat, taps: u32, st: u32) -> u32 {
    (st >> 1) | (parity(st & taps) << ((k - 1) as u32))
}

/// The register after `n` steps from `st`.
pub open spec fn lfsr_run(k: nat, taps: u32, st: u32, n: nat) -> u32
    decreases n,
{
    if n == 0 {
        st
    } else {
        lfsr_step(k, taps, lfsr_run(k, taps, st, (n - 1) as nat))
    }
}

/// Number of non-zero register states.
pub open spec fn full_period(k: nat) -> nat {
    (pow2(k) - 1) as nat
}

/// The register started from 1 first returns to 1 after exactly `p` steps.
pub open spec fn has_period(k: nat, taps: u32, p: nat) -> bool {
    &&& p > 0
    &&& lfsr_run(k, taps, 1, p) == 1
    &&& forall|n: nat| 0 < n < p ==> #[trigger] lfsr_run(k, taps, 1, n) != 1
}

/// The mask gives the longest period a register of `k` places can have.
pub open spec fn primitive(k: nat, taps: u32) -> bool {
    has_period(k, taps, full_period(k))
}

/// A mask that taps some of the `k` places.
pub open spec fn is_mask(k: nat, taps: u32) -> bool {
    0 < taps < pow2(k)
}

/// The smallest mask of full period.
pub open spec fn least_primitive(k: nat, taps: u32) -> bool {
    &&& is_mask(k, taps)
    &&& primitive(k, taps)
    &&& forall|t: u32| is_mask(k, t) && t < taps ==> !primitive(k, t)
}

/// Some mask of `k` places has full period.
pub open spec fn has_primitive(k: nat) -> bool {
    exists|t: u32| #[trigger] is_mask(k, t) && primitive(k, t)
}

/// The smallest mask of full period, where there is one.
pub open spec fn mask_for(k: nat) -> u32 {
    choose|t: u32| least_primitive(k, t)
}

/// Steps add up.
pub proof fn lemma_run_add(k: nat, taps: u32, st: u32, m: nat, n: nat)
    ensures
        lfsr_run(k, taps, st, m + n) == lfsr_run(k, taps, lfsr_run(k, taps, st, m), n),
    decreases n,
{
    if n > 0 {
        lemma_run_add(k, taps, st, m, (n - 1) as nat);
        assert((m + n - 1) as nat == m + (n - 1) as nat);
    }
}

/// The place value of place `k`.
pub proof fn lemma_place(k: nat)
    requires
        k <= 31,
    ensures
        1u32 << (k as u32) == pow2(k),
        pow2(k) <= 0x8000_0000,
        pow2(k) >= 1,
        k >= 1 ==> pow2(k) == 2 * pow2((k - 1) as nat),
{
    lemma2_to64();
    if k < 31 {
        lemma_pow2_strictly_increases(k, 31);
    }
    lemma_pow2_pos(k);
    vstd::bits::lemma_u32_shl_is_mul(1, k as u32);
    if k >= 1 {
        lemma_pow2_unfold(k);
    }
}

/// A step stays within the places of the register, and fixes zero.
pub proof fn lemma_step_range(k: nat, taps: u32, st: u32)
    requires
        1 <= k <= 31,
        st < pow2(k),
    ensures
        lfsr_step(k, taps, st) < pow2(k),
        st == 0 ==> lfsr_step(k, taps, st) == 0,
{
    lemma_place(k);
    let c = k as u32;
    let p = parity(st & taps);
    if st == 0 {
        assert(0u32 & taps == 0) by (bit_vector);
    }
    assert(((st >> 1) | (p << ((c - 1) as u32))) < 1u32 << c && (p == 0 && st == 0 ==> (st >> 1) | (
    p << ((c - 1) as u32)) == 0)) by (bit_vector)
        requires
            1 <= c <= 31,
            st < 1u32 << c,
            p <= 1,
    ;
}

/// Exclusive or passes through a step.
proof fn lemma_step_linear(k: nat, taps: u32, a: u32, b: u32)
    requires
        1 <= k <= 31,
        a < pow2(k),
        b < pow2(k),
    ensures
        (a ^ b) < pow2(k),
        lfsr_step(k, taps, a ^ b) == lfsr_step(k, taps, a) ^ lfsr_step(k, taps, b),
{
    lemma_place(k);
    let c = k as u32;
    let pa = parity(a & taps);
    let pb = parity(b & taps);
    let p = parity((a ^ b) & taps);
    assert((a ^ b) & taps == (a & taps) ^ (b & taps)) by (bit_vector);
    lemma_parity_xor(a & taps, b & taps);
    assert((a ^ b) < 1u32 << c && ((a ^ b) >> 1) | (p << ((c - 1) as u32)) == ((a >> 1) | (pa << ((c
        - 1) as u32))) ^ ((b >> 1) | (pb << ((c - 1) as u32)))) by (bit_vector)
        requires
            1 <= c <= 31,
            a < 1u32 << c,
            b < 1u32 << c,
            pa <= 1,
            pb <= 1,
            pa == pb ==> p == 0,
            pa != pb ==> p == 1,
    ;
}

/// A run stays within the register, keeps zero, and is linear under exclusive or.
pub proof fn lemma_run_range(k: nat, taps: u32, st: u32, n: nat)
    requires
        1 <= k <= 31,
        st < pow2(k),
    ensures
        lfsr_run(k, taps, st, n) < pow2(k),
        st == 0 ==> lfsr_run(k, taps, st, n) == 0,
    decreases n,
{
    if n > 0 {
        lemma_run_range(k, taps, st, (n - 1) as nat);
        lemma_step_range(k, taps, lfsr_run(k, taps, st, (n - 1) as nat));
    }
}

/// Exclusive or passes through a run.
pub proof fn lemma_run_linear(k: nat, taps: u32, a: u32, b: u32, n: nat)
    requires
        1 <= k <= 31,
        a < pow2(k),
        b < pow2(k),
    ensures
        (a ^ b) < pow2(k),
        lfsr_run(k, taps, a ^ b, n) == lfsr_run(k, taps, a, n) ^ lfsr_run(k, taps, b, n),
    decreases n,
{
    lemma_step_linear(k, taps, a, b);
    if n > 0 {
        let m = (n - 1) as nat;
        lemma_run_linear(k, taps, a, b, m);
        lemma_run_range(k, taps, a, m);
        lemma_run_range(k, taps, b, m);
        lemma_step_linear(k, taps, lfsr_run(k, taps, a, m), lfsr_run(k, taps, b, m));
    }
}

/// A register that returns to 1 repeats itself from there.
pub proof fn lemma_run_periodic(k: nat, taps: u32, p: nat, c: nat, n: nat)
    requires
        lfsr_run(k, taps, 1, p) == 1,
    ensures
        lfsr_run(k, taps, 1, c * p + n) == lfsr_run(k, taps, 1, n),
    decreases c,
{
    if c > 0 {
        let b = (c - 1) as nat;
        lemma_run_periodic(k, taps, p, b, n);
        assert(c * p + n == p + (b * p + n)) by (nonlinear_arith)
            requires
                c == b + 1,
        ;
        lemma_run_add(k, taps, 1, p, b * p + n);
    } else {
        assert(0 * p + n == n) by (nonlinear_arith);
    }
}

/// Within one period no state comes twice.
pub proof fn lemma_states_distinct(k: nat, taps: u32, p: nat, m: nat, n: nat)
    requires
        has_period(k, taps, p),
        m < n < m + p,
    ensures
        lfsr_run(k, taps, 1, m) != lfsr_run(k, taps, 1, n),
{
    if lfsr_run(k, taps, 1, m) == lfsr_run(k, taps, 1, n) {
        // Run both on to the next multiple of the period.
        let c = m + 1;
        let gap = (c * p - m) as nat;
        assert(c * p >= m + 1) by (nonlinear_arith)
            requires
                c == m + 1,
                p >= 1,
        ;
        lemma_run_add(k, taps, 1, m, gap);
        lemma_run_add(k, taps, 1, n, gap);
        assert(m + gap == c * p + 0);
        assert(n + gap == c * p + (n - m) as nat);
        lemma_run_periodic(k, taps, p, c, 0);
        lemma_run_periodic(k, taps, p, c, (n - m) as nat);
        assert(lfsr_run(k, taps, 1, 0) == 1);
        assert(lfsr_run(k, taps, 1, (n - m) as nat) != 1);
    }
}

/// A register that returns to 1 is never zero.
pub proof fn lemma_states_nonzero(k: nat, taps: u32, p: nat, n: nat)
    requires
        1 <= k <= 31,
        has_period(k, taps, p),
    ensures
        0 < lfsr_run(k, taps, 1, n) < pow2(k),
{
    lemma_place(k);
    lemma2_to64();
    lemma_run_range(k, taps, 1, n);
    if lfsr_run(k, taps, 1, n) == 0 {
        let c = n + 1;
        assert(c * p >= n + 1) by (nonlinear_arith)
            requires
                c == n + 1,
                p >= 1,
        ;
        lemma_run_add(k, taps, 1, n, (c * p - n) as nat);
        lemma_run_range(k, taps, 0, (c * p - n) as nat);
        lemma_run_periodic(k, taps, p, c, 0);
        assert(lfsr_run(k, taps, 1, 0) == 1);
    }
}

/// The chip that goes with a register state: +1 for an odd one, -1 for an even one.
pub open spec fn chip(st: u32) -> int {
    if st & 1 == 1 {
        1
    } else {
        -1
    }
}

/// Chip number `t` of the sequence that the register with mask `taps` generates.
pub open spec fn chip_at(k: nat, taps: u32, t: int) -> int {
    chip(lfsr_run(k, taps, 1, t as nat))
}

/// One period of register states, from step `u` on.
spec fn period_states(k: nat, taps: u32, u: nat) -> Seq<int> {
    Seq::new(full_period(k), |t: int| lfsr_run(k, taps, 1, (t + u) as nat) as int)
}

/// One period holds different non-zero states.
proof fn lemma_period_states(k: nat, taps: u32, u: nat)
    requires
        1 <= k <= 31,
        primitive(k, taps),
    ensures
        period_states(k, taps, u).no_duplicates(),
        forall|t: int|
            0 <= t < full_period(k) ==> 1 <= #[trigger] period_states(k, taps, u)[t] < 1
                + full_period(k),
{
    let s = period_states(k, taps, u);
    let p = full_period(k);
    assert forall|t: int| 0 <= t < p implies 1 <= #[trigger] s[t] < 1 + p by {
        lemma_states_nonzero(k, taps, p, (t + u) as nat);
    }
    assert forall|a: int, b: int| 0 <= a < s.len() && 0 <= b < s.len() && a != b implies s[a]
        != s[b] by {
        if a < b {
            lemma_states_distinct(k, taps, p, (a + u) as nat, (b + u) as nat);
        } else {
            lemma_states_distinct(k, taps, p, (b + u) as nat, (a + u) as nat);
        }
    }
}

/// A register of full period runs through every non-zero state.
pub proof fn lemma_every_state_reached(k: nat, taps: u32, st: u32) -> (n: nat)
    requires
        1 <= k <= 31,
        primitive(k, taps),
        0 < st < pow2(k),
    ensures
        n < full_period(k),
        lfsr_run(k, taps, 1, n) == st,
{
    lemma_period_states(k, taps, 0);
    let s = period_states(k, taps, 0);
    lemma_all_present(s, 1, st as int);
    let n = choose|n: int| 0 <= n < s.len() && s[n] == st as int;
    n as nat
}

/// Odd and even numbers from 1 on balance, up to one.
proof fn lemma_alternating(n: nat, f: spec_fn(int) -> int)
    requires
        forall|v: int| 1 <= v <= n ==> #[trigger] f(v) == (if v % 2 == 1 { 1int } else { -1int }),
    ensures
        sum_range(1, n, f) == n % 2,
    decreases n,
{
    if n > 0 {
        lemma_alternating((n - 1) as nat, f);
    }
}

/// A sequence of full period is balanced: over one period, wherever it
/// begins, the chips add up to 1.
pub proof fn lemma_balance(k: nat, taps: u32, u: nat)
    requires
        1 <= k <= 31,
        primitive(k, taps),
    ensures
        sum_range(0, full_period(k), |t: int| chip_at(k, taps, t + u)) == 1,
{
    let p = full_period(k);
    let s = period_states(k, taps, u);
    let f = |v: int| chip(v as u32);
    lemma_place(k);
    lemma_period_states(k, taps, u);
    lemma_sum_permuted(s, 1, f);
    lemma_sum_over_indices(s, f);
    lemma_sum_range_congruent(0, p, |t: int| f(s[t]), |t: int| chip_at(k, taps, t + u));
    assert forall|v: int| 1 <= v <= p implies #[trigger] f(v) == (if v % 2 == 1 {
        1int
    } else {
        -1int
    }) by {
        lemma_last_bit(v as u64);
    }
    lemma_alternating(p, f);
    assert(p % 2 == 1);
}

/// The product of two chips is the negated chip of the exclusive or.
proof fn lemma_chip_product(a: u32, b: u32)
    ensures
        chip(a) * chip(b) == -chip(a ^ b),
{
    assert((a ^ b) & 1 == (a & 1) ^ (b & 1) && a & 1 <= 1 && b & 1 <= 1 && 0u32 ^ 0 == 0 && 0u32
        ^ 1 == 1 && 1u32 ^ 0 == 1 && 1u32 ^ 1 == 0) by (bit_vector);
}

/// The periodic autocorrelation of a sequence of full period is ideal: at
/// every shift but zero it is -1.
pub proof fn lemma_autocorrelation(k: nat, taps: u32, shift: nat)
    requires
        1 <= k <= 31,
        primitive(k, taps),
        0 < shift < full_period(k),
    ensures
        sum_range(0, full_period(k), |t: int| chip_at(k, taps, t) * chip_at(k, taps, t + shift))
            == -1,
{
    let p = full_period(k);
    let other = lfsr_run(k, taps, 1, shift);
    lemma_place(k);
    lemma_states_nonzero(k, taps, p, shift);
    lemma2_to64();
    assert(1 < pow2(k));
    lemma_run_linear(k, taps, 1, other, 0);
    assert(1u32 ^ other != 0) by (bit_vector)
        requires
            other != 1,
    ;
    let u = lemma_every_state_reached(k, taps, 1u32 ^ other);
    let pairs = |t: int| chip_at(k, taps, t) * chip_at(k, taps, t + shift);
    let g = |t: int| chip_at(k, taps, t + u);
    let negated = |t: int| -g(t);
    assert forall|t: int| 0 <= t < p implies #[trigger] pairs(t) == negated(t) by {
        let n = t as nat;
        lemma_chip_product(lfsr_run(k, taps, 1, n), lfsr_run(k, taps, 1, n + shift));
        lemma_run_add(k, taps, 1, shift, n);
        lemma_run_linear(k, taps, 1, other, n);
        lemma_run_add(k, taps, 1, u, n);
    }
    lemma_sum_range_congruent(0, p, pairs, negated);
    lemma_balance(k, taps, u);
    lemma_sum_range_negated(0, p, g);
}

/// Registers of 6, 8, 10 and 12 places have a mask of full period.
pub proof fn lemma_lengths_in_use(k: nat)
    requires
        k == 6 || k == 8 || k == 10 || k == 12,
    ensures
        has_primitive(k),
{
    if k == 6 {
        primitive::lemma_primitive_6();
    } else if k == 8 {
        primitive::lemma_primitive_8();
    } else if k == 10 {
        primitive::lemma_primitive_10();
    } else {
        primitive::lemma_primitive_12();
    }
}

/// Where some mask has full period, there is a smallest one, and only one.
pub proof fn lemma_least_exists(k: nat)
    requires
        has_primitive(k),
    ensures
        least_primitive(k, mask_for(k)),
        forall|t: u32| least_primitive(k, t) ==> t == mask_for(k),
{
    let t = choose|t: u32| #[trigger] is_mask(k, t) && primitive(k, t);
    lemma_least_below(k, t);
    let m = mask_for(k);
    assert(least_primitive(k, m));
    assert forall|t: u32| least_primitive(k, t) implies t == m by {
        assert(is_mask(k, t) && is_mask(k, m));
    }
}

/// From a mask of full period down to the smallest.
proof fn lemma_least_below(k: nat, t: u32)
    requires
        is_mask(k, t),
        primitive(k, t),
    ensures
        exists|m: u32| least_primitive(k, m),
    decreases t,
{
    if !least_primitive(k, t) {
        let s = choose|s: u32| #[trigger] is_mask(k, s) && s < t && primitive(k, s);
        lemma_least_below(k, s);
    }
}

/// One step of the register.
fn step_register(k: usize, taps: u32, st: u32) -> (next: u32)
    requires
        1 <= k <= 32,
    ensures
        next == lfsr_step(k as nat, taps, st),
{
    let fb: u32 = count_ones(st & taps) % 2;
    (st >> 1) | (fb << ((k - 1) as u32))
}

/// The number of states that a register of `k` places can run through.
fn register_states(k: usize) -> (n: usize)
    requires
        1 <= k <= 32,
    ensures
        n == full_period(k as nat),
{
    proof {
        lemma2_to64();
        lemma_pow2_strictly_increases(k as nat, 33);
        if k < 32 {
            lemma_pow2_strictly_increases(k as nat, 32);
        }
        lemma_pow2_pos(k as nat);
        vstd::bits::lemma_u64_shl_is_mul(1, k as u64);
    }
    let all: u64 = (1u64 << (k as u64)) - 1;
    all as usize
}

/// The period of the register of `k` places with mask `taps`, started from 1;
/// 0 when the register cycles before the full period `2^k - 1`, or never comes
/// back to 1.
pub fn lfsr_period(k: usize, taps: u32) -> (p: usize)
    requires
        1 <= k <= 32,
    ensures
        p == if primitive(k as nat, taps) {
            full_period(k as nat)
        } else {
            0
        },
{
    let full: usize = register_states(k);
    let mut st: u32 = 1;
    let mut step: usize = 0;
    while step < full
        invariant
            1 <= k <= 32,
            full == full_period(k as nat),
            step <= full,
            st == lfsr_run(k as nat, taps, 1, step as nat),
            forall|n: nat| 0 < n <= step ==> #[trigger] lfsr_run(k as nat, taps, 1, n) != 1,
        decreases full - step,
    {
        st = step_register(k, taps, st);
        step = step + 1;
        if st == 1 {
            assert(lfsr_run(k as nat, taps, 1, step as nat) == 1);
            return if step == full { full } else { 0 };
        }
    }
    0
}

/// The smallest mask of full period for a register of `k` places, found by
/// running the register under each mask in turn.
pub fn primitive_mask(k: usize) -> (r: Option<u32>)
    requires
        1 <= k <= 31,
    ensures
        r matches Some(taps) ==> least_primitive(k as nat, taps) && taps == mask_for(k as nat),
        r is None <==> !has_primitive(k as nat),
{
    let ghost n = k as nat;
    let full: usize = register_states(k);
    proof {
        lemma_place(n);
    }
    let top: u32 = 1u32 << (k as u32);
    let mut taps: u32 = 1;
    while taps < top
        invariant
            1 <= k <= 31,
            n == k as nat,
            full == full_period(n),
            top == pow2(n),
            1 <= taps <= top,
            full >= 1,
            forall|t: u32| #[trigger] is_mask(n, t) && t < taps ==> !primitive(n, t),
        decreases top - taps,
    {
        if lfsr_period(k, taps) == full {
            proof {
                assert(least_primitive(n, taps));
                lemma_least_exists(n);
            }
            return Some(taps);
        }
        taps = taps + 1;
    }
    None
}

/// The binary sequence of period `2^k - 1`, as +1 and -1, under the smallest
/// mask of full period.
pub fn m_sequence(k: usize) -> (out: Vec<i8>)
    requires
        1 <= k <= 31,
        k == 6 || k == 8 || k == 10 || k == 12 || has_primitive(k as nat),
    ensures
        least_primitive(k as nat, mask_for(k as nat)),
        out@.len() == full_period(k as nat),
        forall|t: int|
            0 <= t < out@.len() ==> #[trigger] out@[t] == chip_at(
                k as nat,
                mask_for(k as nat),
                t,
            ),
{
    let ghost n = k as nat;
    proof {
        if !has_primitive(n) {
            lemma_lengths_in_use(n);
        }
    }
    let mut out: Vec<i8> = Vec::new();
    if let Some(taps) = primitive_mask(k) {
        let full: usize = register_states(k);
        let mut st: u32 = 1;
        let mut t: usize = 0;
        while t < full
            invariant
                1 <= k <= 31,
                n == k as nat,
                full == full_period(n),
                t <= full,
                st == lfsr_run(n, taps, 1, t as nat),
                out@.len() == t,
                forall|i: int| 0 <= i < t ==> #[trigger] out@[i] == chip_at(n, taps, i),
            decreases full - t,
        {
            out.push(if st & 1 == 1 { 1 } else { -1 });
            st = step_register(k, taps, st);
            t = t + 1;
        }
    }
    out
}

/// A step halves the register and puts the parity of the tapped places into
/// the place that falls free at the top.
pub proof fn lemma_step_halves(k: nat, taps: u32, st: u32)
    requires
        1 <= k <= 31,
        st < pow2(k),
    ensures
        lfsr_step(k, taps, st) == st / 2 + (popcount((st & taps) as nat) % 2) * pow2((k - 1) as nat),
{
    lemma_place(k);
    lemma_place((k - 1) as nat);
    let c = k as u32;
    let p = parity(st & taps);
    let top = 1u32 << ((c - 1) as u32);
    assert((st >> 1) | (p << ((c - 1) as u32)) == st / 2 + if p == 0 {
        0
    } else {
        1u32 << ((c - 1) as u32)
    }) by (bit_vector)
        requires
            1 <= c <= 31,
            st < 1u32 << c,
            p <= 1,
    ;
    assert(0 * pow2((k - 1) as nat) == 0 && 1 * pow2((k - 1) as nat) == pow2((k - 1) as nat))
        by (nonlinear_arith);
}

/// The register holds what it is about to give: place `j` now is the last
/// place `j` steps later.
pub proof fn lemma_register_looks_ahead(k: nat, taps: u32, st: u32, t: nat, j: nat)
    requires
        1 <= k <= 31,
        st < pow2(k),
        j < k,
    ensures
        (lfsr_run(k, taps, st, t) as nat / pow2(j)) % 2 == lfsr_run(k, taps, st, t + j) % 2,
    decreases j,
{
    let now = lfsr_run(k, taps, st, t);
    lemma2_to64();
    if j == 0 {
        assert(now as nat / 1 == now as nat);
    } else {
        let i = (j - 1) as nat;
        lemma_run_range(k, taps, st, t);
        lemma_register_looks_ahead(k, taps, st, t + 1, i);
        lemma_step_halves(k, taps, now);
        let next = lfsr_run(k, taps, st, t + 1);
        assert(next == lfsr_step(k, taps, now)) by {
            assert((t + 1 - 1) as nat == t);
        }
        let f = popcount((now & taps) as nat) % 2;
        let half = (now / 2) as nat;
        // The fed place lies above place i, where it does not matter.
        let gap = (k - 1 - i) as nat;
        lemma_pow2_adds(gap, i);
        lemma_pow2_unfold(gap);
        lemma_pow2_pos(i);
        let d = pow2(i) as int;
        let turns = (f * pow2(gap)) as int;
        assert(next as int == half + d * turns) by (nonlinear_arith)
            requires
                next == half + f * pow2((k - 1) as nat),
                pow2((k - 1) as nat) == pow2(gap) * pow2(i),
                d == pow2(i),
                turns == f * pow2(gap),
        ;
        vstd::arithmetic::div_mod::lemma_fundamental_div_mod(half as int, d);
        vstd::arithmetic::div_mod::lemma_mod_bound(half as int, d);
        let q = half as int / d;
        assert(next as int == (turns + q) * d + half as int % d) by (nonlinear_arith)
            requires
                next as int == half + d * turns,
                half as int == d * q + half as int % d,
        ;
        vstd::arithmetic::div_mod::lemma_fundamental_div_mod_converse(
            next as int,
            d,
            turns + q,
            half as int % d,
        );
        assert(turns == 2 * (f * pow2((gap - 1) as nat))) by (nonlinear_arith)
            requires
                turns == f * pow2(gap),
                pow2(gap) == 2 * pow2((gap - 1) as nat),
        ;
        lemma_pow2_unfold(j);
        vstd::arithmetic::div_mod::lemma_div_denominator(now as int, 2, d);
        assert(t + 1 + i == t + j);
    }
}

/// The sequence obeys the recurrence of its mask: the last place `k` steps on
/// is the parity of the tapped places now.
pub proof fn lemma_recurrence(k: nat, taps: u32, st: u32, t: nat)
    requires
        1 <= k <= 31,
        st < pow2(k),
    ensures
        lfsr_run(k, taps, st, t + k) as nat % 2 == popcount(
            (lfsr_run(k, taps, st, t) & taps) as nat,
        ) % 2,
{
    let now = lfsr_run(k, taps, st, t);
    let next = lfsr_run(k, taps, st, t + 1);
    let top = (k - 1) as nat;
    lemma_run_range(k, taps, st, t);
    lemma_step_halves(k, taps, now);
    assert(next == lfsr_step(k, taps, now)) by {
        assert((t + 1 - 1) as nat == t);
    }
    lemma_register_looks_ahead(k, taps, st, t + 1, top);
    lemma_place(k);
    lemma_pow2_pos(top);
    let f = popcount((now & taps) as nat) % 2;
    vstd::arithmetic::div_mod::lemma_fundamental_div_mod_converse(
        next as int,
        pow2(top) as int,
        f as int,
        now as int / 2,
    );
    assert(t + 1 + top == t + k);
}

/// A chip is +1 where the last place of the register is one, and -1 where it is zero.
pub proof fn lemma_chip_is_last_place(st: u32)
    ensures
        chip(st) == 2 * (st % 2) - 1,
{
    lemma_last_bit(st as u64);
}

} // verus!
