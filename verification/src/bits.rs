//! Counting the ones of a binary word.

use vstd::arithmetic::power2::pow2;
use vstd::prelude::*;

use crate::sums::{lemma_sum_range_congruent, lemma_sum_shift, lemma_sum_split, sum_range};

verus! {

/// Number of ones in the binary representation of `x`.
pub open spec fn popcount(x: nat) -> nat
    decreases x,
{
    if x == 0 {
        0
    } else {
        x % 2 + popcount(x / 2)
    }
}

/// Parity of the number of ones: 1 for an odd number, 0 for an even one.
pub open spec fn parity(x: u32) -> u32 {
    (popcount(x as nat) % 2) as u32
}

/// Halving a word and taking its last bit commute with exclusive or.
proof fn lemma_xor_halves(a: u32, b: u32)
    ensures
        (a ^ b) / 2 == (a / 2) ^ (b / 2),
        (a ^ b) % 2 == (a % 2 + b % 2) % 2,
        a ^ 0 == a,
        0 ^ b == b,
{
    assert((a ^ b) / 2 == (a / 2) ^ (b / 2) && (a ^ b) % 2 == (a % 2 + b % 2) % 2 && a ^ 0 == a
        && 0 ^ b == b) by (bit_vector);
}

/// The parity of an exclusive or is the sum of the parities modulo two.
pub proof fn lemma_parity_xor(a: u32, b: u32)
    ensures
        popcount((a ^ b) as nat) % 2 == (popcount(a as nat) + popcount(b as nat)) % 2,
    decreases a,
{
    lemma_xor_halves(a, b);
    if a == 0 {
        lemma_xor_halves(b, a);
    } else {
        lemma_parity_xor(a / 2, b / 2);
        let c = a ^ b;
        assert(popcount(c as nat) == c % 2 + popcount((c / 2) as nat));
        assert(popcount(b as nat) == b % 2 + popcount((b / 2) as nat));
    }
}

/// A word with `n` binary places has at most `n` ones.
pub proof fn lemma_popcount_bound(x: nat, n: nat)
    requires
        x < pow2(n),
    ensures
        popcount(x) <= n,
    decreases n,
{
    if x > 0 {
        if n == 0 {
            vstd::arithmetic::power2::lemma2_to64();
        } else {
            vstd::arithmetic::power2::lemma_pow2_unfold(n);
            lemma_popcount_bound(x / 2, (n - 1) as nat);
        }
    }
}

/// Only zero has no ones.
pub proof fn lemma_popcount_zero(x: nat)
    ensures
        popcount(x) == 0 <==> x == 0,
    decreases x,
{
    if x > 0 {
        lemma_popcount_zero(x / 2);
    }
}

/// A word with a single one is not zero.
pub proof fn lemma_single_one(b: u32)
    requires
        b < 32,
    ensures
        1u32 << b >= 1,
{
    assert(1u32 << b >= 1) by (bit_vector)
        requires
            b < 32,
    ;
}

/// The number of ones of a long word.
pub fn count_ones_long(x: u64) -> (n: u32)
    ensures
        n == popcount(x as nat),
        n <= 64,
{
    proof {
        vstd::arithmetic::power2::lemma2_to64();
        lemma_popcount_bound(x as nat, 64);
    }
    let mut rest: u64 = x;
    let mut n: u32 = 0;
    while rest > 0
        invariant
            n + popcount(rest as nat) == popcount(x as nat),
            popcount(x as nat) <= 64,
        decreases rest,
    {
        n = n + (rest % 2) as u32;
        rest = rest / 2;
    }
    n
}

/// The number of ones of a word.
pub fn count_ones(x: u32) -> (n: u32)
    ensures
        n == popcount(x as nat),
        n <= 32,
{
    proof {
        vstd::arithmetic::power2::lemma2_to64();
        lemma_popcount_bound(x as nat, 32);
    }
    let mut rest: u32 = x;
    let mut n: u32 = 0;
    while rest > 0
        invariant
            n + popcount(rest as nat) == popcount(x as nat),
            popcount(x as nat) <= 32,
        decreases rest,
    {
        n = n + rest % 2;
        rest = rest / 2;
    }
    n
}

/// The last bit of a word tells whether it is odd.
pub proof fn lemma_last_bit(x: u64)
    ensures
        x & 1 == x % 2,
        x & 1 != 0 <==> x % 2 == 1,
{
    assert(x & 1 == x % 2) by (bit_vector);
}

/// The second bit of a word tells whether its half is odd.
pub proof fn lemma_second_bit(x: u64)
    ensures
        x & 2 != 0 <==> (x / 2) % 2 == 1,
{
    assert(x & 2 != 0 <==> (x / 2) % 2 == 1) by (bit_vector);
}

/// The number of ones is the sum of the binary places, one by one.
pub proof fn lemma_popcount_places(x: nat, n: nat)
    requires
        x < pow2(n),
    ensures
        popcount(x) == sum_range(0, n, |k: int| ((x / pow2(k as nat)) % 2) as int),
    decreases n,
{
    let f = |k: int| ((x / pow2(k as nat)) % 2) as int;
    if n == 0 {
        vstd::arithmetic::power2::lemma2_to64();
    } else {
        let m = (n - 1) as nat;
        let g = |k: int| (((x / 2) / pow2(k as nat)) % 2) as int;
        vstd::arithmetic::power2::lemma_pow2_unfold(n);
        lemma_popcount_places(x / 2, m);
        assert forall|k: int| 0 <= k < 0 + m implies #[trigger] g(k) == f(k + 1) by {
            vstd::arithmetic::power2::lemma_pow2_pos(k as nat);
            vstd::arithmetic::power2::lemma_pow2_unfold((k + 1) as nat);
            vstd::arithmetic::div_mod::lemma_div_denominator(x as int, 2, pow2(k as nat) as int);
        }
        lemma_sum_shift(0, m, f, g);
        lemma_sum_split(0, 1, m, f);
        reveal_with_fuel(sum_range, 2);
        vstd::arithmetic::power2::lemma2_to64();
        assert(pow2(0) == 1 && x / 1 == x);
        assert(f(0) == x % 2);
    }
}

/// The number of ones of a word is the number of its bits that are set.
pub proof fn lemma_popcount_bits(x: u32, n: u32)
    requires
        n < 32,
        x < 1u32 << n,
    ensures
        popcount(x as nat) == sum_range(0, n as nat, |k: int| ((x >> (k as u32)) & 1) as int),
{
    vstd::arithmetic::power2::lemma_pow2_strictly_increases(n as nat, 32);
    vstd::arithmetic::power2::lemma2_to64();
    vstd::bits::lemma_u32_shl_is_mul(1, n);
    lemma_popcount_places(x as nat, n as nat);
    let f = |k: int| (((x as nat) / pow2(k as nat)) % 2) as int;
    let g = |k: int| ((x >> (k as u32)) & 1) as int;
    assert forall|k: int| 0 <= k < 0 + n implies #[trigger] f(k) == g(k) by {
        let s = k as u32;
        vstd::bits::lemma_u32_shr_is_div(x, s);
        lemma_last_bit((x >> s) as u64);
    }
    lemma_sum_range_congruent(0, n as nat, f, g);
}

} // verus!
