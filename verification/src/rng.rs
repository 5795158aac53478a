//! Reproducible pseudo-random numbers: a xorshift64* generator and the seed of
//! every trial, derived from the pair (sweep point, trial) alone.

use vstd::prelude::*;

use crate::arith::{lemma_unit_mul_injective, lemma_unit_mul_undone};

verus! {

/// Number of distinct 64-bit words.
pub open spec fn words() -> int {
    0x1_0000_0000_0000_0000
}

/// The additive constant of splitmix64, also the state that stands in for a zero seed.
pub const GOLDEN: u64 = 0x9E37_79B9_7F4A_7C15;

/// Weight of the point index in a seed.
pub const POINT_WEIGHT: u64 = 0xD1B5_4A32_D192_ED03;

/// Weight of the trial index in a seed.
pub const TRIAL_WEIGHT: u64 = 0x94D0_49BB_1331_11EB;

/// Multiplier that turns a generator state into an output word.
pub const OUTPUT_WEIGHT: u64 = 0x2545_F491_4F6C_DD1D;

/// The splitmix64 finaliser: add the golden constant, then three xor-shifts
/// with a multiplication after the first and the second.
pub open spec fn splitmix(z: u64) -> u64 {
    let a = z.wrapping_add(GOLDEN);
    let b = (a ^ (a >> 30)).wrapping_mul(0xBF58_476D_1CE4_E5B9u64);
    let c = (b ^ (b >> 27)).wrapping_mul(0x94D0_49BB_1331_11EBu64);
    c ^ (c >> 31)
}

/// The word that `seed_for` hands to the finaliser.
pub open spec fn seed_word(point: int, trial: int) -> int {
    (point * POINT_WEIGHT + trial * TRIAL_WEIGHT + GOLDEN) % words()
}

/// The seed of trial `trial` at sweep point `point`.
pub open spec fn seed_value(point: int, trial: int) -> u64 {
    splitmix(seed_word(point, trial) as u64)
}

/// One xorshift step on the state.
pub open spec fn xorshift(s: u64) -> u64 {
    let a = s ^ (s >> 12);
    let b = a ^ (a << 25);
    b ^ (b >> 27)
}

/// The output word that goes with a state.
pub open spec fn output(s: u64) -> u64 {
    s.wrapping_mul(OUTPUT_WEIGHT)
}

/// The number below `n` that goes with a state.
pub open spec fn below(s: u64, n: u32) -> u32 {
    (output(s) % (n as u64)) as u32
}

/// The state a generator starts from: the seed, or the golden constant for seed zero.
pub open spec fn initial_state(seed: u64) -> u64 {
    if seed == 0 {
        GOLDEN
    } else {
        seed
    }
}

/// The state after `n` steps from `s`.
pub open spec fn state_after(s: u64, n: nat) -> u64
    decreases n,
{
    if n == 0 {
        s
    } else {
        xorshift(state_after(s, (n - 1) as nat))
    }
}

/// The xor-shifts of splitmix64 lose nothing.
proof fn lemma_xor_shift_injective(a: u64, b: u64)
    ensures
        a ^ (a >> 30) == b ^ (b >> 30) ==> a == b,
        a ^ (a >> 27) == b ^ (b >> 27) ==> a == b,
        a ^ (a >> 31) == b ^ (b >> 31) ==> a == b,
{
    assert((a ^ (a >> 30) == b ^ (b >> 30) || a ^ (a >> 27) == b ^ (b >> 27) || a ^ (a >> 31) == b
        ^ (b >> 31)) ==> a == b) by (bit_vector);
}

/// The finaliser is one-to-one: different words are mixed into different words.
pub proof fn lemma_splitmix_injective(x: u64, y: u64)
    requires
        splitmix(x) == splitmix(y),
    ensures
        x == y,
{
    let xa = x.wrapping_add(GOLDEN);
    let ya = y.wrapping_add(GOLDEN);
    let xm = xa ^ (xa >> 30);
    let ym = ya ^ (ya >> 30);
    let xb = xm.wrapping_mul(0xBF58_476D_1CE4_E5B9u64);
    let yb = ym.wrapping_mul(0xBF58_476D_1CE4_E5B9u64);
    let xn = xb ^ (xb >> 27);
    let yn = yb ^ (yb >> 27);
    let xc = xn.wrapping_mul(0x94D0_49BB_1331_11EBu64);
    let yc = yn.wrapping_mul(0x94D0_49BB_1331_11EBu64);
    lemma_xor_shift_injective(xc, yc);
    lemma_unit_mul_injective(words(), xn as int, yn as int, 0x94D0_49BB_1331_11EB, 0x3196_42B2_D24D_8EC3, 2077064247507883091);
    lemma_xor_shift_injective(xb, yb);
    lemma_unit_mul_injective(words(), xm as int, ym as int, 0xBF58_476D_1CE4_E5B9, 0x96DE_1B17_3F11_9089, 8125545580553827436);
    lemma_xor_shift_injective(xa, ya);
}

/// The output word determines the state.
pub proof fn lemma_output_injective(x: u64, y: u64)
    requires
        output(x) == output(y),
    ensures
        x == y,
{
    lemma_unit_mul_injective(words(), x as int, y as int, 0x2545_F491_4F6C_DD1D, 0x5907_1D96_D81E_CD35, 934034299265436267);
}

/// A step never reaches the degenerate zero state from a non-zero one.
pub proof fn lemma_step_keeps_nonzero(s: u64)
    requires
        s != 0,
    ensures
        xorshift(s) != 0,
{
    assert(s != 0 ==> ({
        let a = s ^ (s >> 12);
        let b = a ^ (a << 25);
        b ^ (b >> 27)
    }) != 0) by (bit_vector);
}

/// A step is one-to-one: two generators in different states stay in different states.
pub proof fn lemma_step_injective(x: u64, y: u64)
    requires
        xorshift(x) == xorshift(y),
    ensures
        x == y,
{
    lemma_step_taken_back(x);
    lemma_step_taken_back(y);
}

/// Generators started from different states give different words at every
/// step, and no state on the way is zero.
pub proof fn lemma_streams_never_meet(x: u64, y: u64, n: nat)
    requires
        x != 0,
        y != 0,
        x != y,
    ensures
        state_after(x, n) != 0,
        state_after(y, n) != 0,
        state_after(x, n) != state_after(y, n),
        output(state_after(x, n)) != output(state_after(y, n)),
    decreases n,
{
    if n > 0 {
        let m = (n - 1) as nat;
        lemma_streams_never_meet(x, y, m);
        lemma_step_keeps_nonzero(state_after(x, m));
        lemma_step_keeps_nonzero(state_after(y, m));
        if xorshift(state_after(x, m)) == xorshift(state_after(y, m)) {
            lemma_step_injective(state_after(x, m), state_after(y, m));
        }
    }
    if output(state_after(x, n)) == output(state_after(y, n)) {
        lemma_output_injective(state_after(x, n), state_after(y, n));
    }
}

/// Two seeds are equal exactly when the weighted index differences cancel modulo 2^64.
pub proof fn lemma_seed_collisions(p: int, t: int, q: int, u: int)
    ensures
        seed_value(p, t) == seed_value(q, u) <==> ((p - q) * POINT_WEIGHT + (t - u)
            * TRIAL_WEIGHT) % words() == 0,
{
    let m = words();
    let a = p * POINT_WEIGHT + t * TRIAL_WEIGHT + GOLDEN;
    let b = q * POINT_WEIGHT + u * TRIAL_WEIGHT + GOLDEN;
    assert(a - b == (p - q) * POINT_WEIGHT + (t - u) * TRIAL_WEIGHT);
    if seed_value(p, t) == seed_value(q, u) {
        lemma_splitmix_injective(seed_word(p, t) as u64, seed_word(q, u) as u64);
        assert(a % m == b % m);
    }
    vstd::arithmetic::div_mod::lemma_mod_equivalence(a, b, m);
}

/// Below this bound on both indices no two trials share a seed. The bound is
/// sharp: `(2068255881, 0)` and `(0, 493692433)` give the same seed.
pub const SEED_SPAN: usize = 2_068_255_881;

/// Different (point, trial) pairs below `SEED_SPAN` get different seeds.
///
/// The index differences `(x, y)` that cancel form a plane lattice of area
/// 2^64 spanned by `(-2068255881, 493692433)` and `(-2300100373, -8369951747)`;
/// both coordinates of any other lattice point cannot be that short.
pub proof fn lemma_seeds_distinct(p: int, t: int, q: int, u: int)
    requires
        0 <= p < SEED_SPAN,
        0 <= t < SEED_SPAN,
        0 <= q < SEED_SPAN,
        0 <= u < SEED_SPAN,
        seed_value(p, t) == seed_value(q, u),
    ensures
        p == q,
        t == u,
{
    lemma_seed_collisions(p, t, q, u);
    let m = words();
    let x = p - q;
    let y = t - u;
    let z = x * POINT_WEIGHT + y * TRIAL_WEIGHT;
    let k = z / m;
    assert(z == k * m);
    // The coordinates of (x, y) in the basis, each times the area, are multiples of 2^64.
    let w = x * (-8369951747) - y * (-2300100373);
    let i = 0x3196_42B2_D24D_8EC3 * (x * (-6749658929) - (-2300100373) * k)
        - 2077064247507883091 * w;
    assert(w == m * i);
    let v = (-2068255881) * y - 493692433 * x;
    let j = 0x3196_42B2_D24D_8EC3 * ((-2068255881) * k - x * (-1407273366))
        - 2077064247507883091 * v;
    assert(v == m * j);
    assert(j == 0);
    assert(x == i * (-2068255881));
}

/// Mixes a word into a well spread one.
pub fn splitmix64(z: u64) -> (r: u64)
    ensures
        r == splitmix(z),
{
    let a: u64 = z.wrapping_add(GOLDEN);
    let b: u64 = (a ^ (a >> 30)).wrapping_mul(0xBF58_476D_1CE4_E5B9);
    let c: u64 = (b ^ (b >> 27)).wrapping_mul(0x94D0_49BB_1331_11EB);
    c ^ (c >> 31)
}

/// The seed of one trial, from the indices of the sweep point and of the trial.
pub fn seed_for(point_idx: usize, trial_idx: usize) -> (seed: u64)
    ensures
        seed == seed_value(point_idx as int, trial_idx as int),
{
    let by_point: u64 = (point_idx as u64).wrapping_mul(POINT_WEIGHT);
    let by_trial: u64 = (trial_idx as u64).wrapping_mul(TRIAL_WEIGHT);
    let mixed: u64 = by_point.wrapping_add(by_trial).wrapping_add(GOLDEN);
    assert(mixed == seed_word(point_idx as int, trial_idx as int)) by {
        let a = point_idx * POINT_WEIGHT;
        let b = trial_idx * TRIAL_WEIGHT;
        let m = words();
        assert(by_point == a % m);
        assert(by_trial == b % m);
        assert(mixed == (a % m + b % m + GOLDEN) % m);
        vstd::arithmetic::div_mod::lemma_mod_equivalence(a % m + b % m + GOLDEN, a + b + GOLDEN, m);
        assert((a % m + b % m + GOLDEN) - (a + b + GOLDEN) == m * -(a / m + b / m));
        vstd::arithmetic::div_mod::lemma_mod_multiples_basic(-(a / m + b / m), m);
    }
    splitmix64(mixed)
}

/// A xorshift64* generator. Its state is never zero.
pub struct Rng {
    state: u64,
}

impl View for Rng {
    type V = u64;

    closed spec fn view(&self) -> u64 {
        self.state
    }
}

impl Rng {
    #[verifier::type_invariant]
    spec fn nonzero(self) -> bool {
        self.state != 0
    }

    /// A generator with an explicit seed; seed zero is replaced by a constant.
    pub fn new(seed: u64) -> (rng: Self)
        ensures
            rng@ == initial_state(seed),
            rng@ != 0,
    {
        let state: u64 = if seed == 0 {
            GOLDEN
        } else {
            seed
        };
        Rng { state }
    }

    /// The next 64-bit word.
    pub fn next_u64(&mut self) -> (word: u64)
        ensures
            final(self)@ == xorshift(old(self)@),
            final(self)@ != 0,
            word == output(final(self)@),
    {
        proof {
            use_type_invariant(&*self);
        }
        let s: u64 = self.state;
        let a: u64 = s ^ (s >> 12);
        let b: u64 = a ^ (a << 25);
        let c: u64 = b ^ (b >> 27);
        proof {
            lemma_step_keeps_nonzero(s);
        }
        self.state = c;
        c.wrapping_mul(OUTPUT_WEIGHT)
    }

    /// The next 53-bit draw: the high bits of the next word. Divided by 2^53
    /// it is a uniform number of the half-open unit interval.
    pub fn next_u53(&mut self) -> (draw: u64)
        ensures
            final(self)@ == xorshift(old(self)@),
            draw == output(final(self)@) >> 11,
            draw == output(final(self)@) / 2048,
            draw < 0x20_0000_0000_0000,
    {
        let word: u64 = self.next_u64();
        proof {
            vstd::arithmetic::power2::lemma2_to64();
            vstd::bits::lemma_u64_shr_is_div(word, 11);
        }
        word >> 11
    }

    /// A uniform integer below `n`, or 0 for `n == 0`, which draws nothing.
    pub fn next_u32_below(&mut self, n: u32) -> (r: u32)
        ensures
            n == 0 ==> r == 0 && final(self)@ == old(self)@,
            n > 0 ==> final(self)@ == xorshift(old(self)@) && r == below(final(self)@, n),
            n > 0 ==> r < n,
    {
        if n == 0 {
            return 0;
        }
        (self.next_u64() % n as u64) as u32
    }
}

/// Shifting and adding again undoes the xor-shifts of the generator.
proof fn lemma_xor_shifts_undone(x: u64)
    ensures
        ({
            let y = x ^ (x >> 12);
            y ^ (y >> 12) ^ (y >> 24) ^ (y >> 36) ^ (y >> 48) ^ (y >> 60)
        }) == x,
        ({
            let y = x ^ (x << 25);
            y ^ (y << 25) ^ (y << 50)
        }) == x,
        ({
            let y = x ^ (x >> 27);
            y ^ (y >> 27) ^ (y >> 54)
        }) == x,
        ({
            let y = x ^ (x >> 30);
            y ^ (y >> 30) ^ (y >> 60)
        }) == x,
        ({
            let y = x ^ (x >> 31);
            y ^ (y >> 31) ^ (y >> 62)
        }) == x,
{
    assert(({
        let y = x ^ (x >> 12);
        y ^ (y >> 12) ^ (y >> 24) ^ (y >> 36) ^ (y >> 48) ^ (y >> 60)
    }) == x && ({
        let y = x ^ (x << 25);
        y ^ (y << 25) ^ (y << 50)
    }) == x && ({
        let y = x ^ (x >> 27);
        y ^ (y >> 27) ^ (y >> 54)
    }) == x && ({
        let y = x ^ (x >> 30);
        y ^ (y >> 30) ^ (y >> 60)
    }) == x && ({
        let y = x ^ (x >> 31);
        y ^ (y >> 31) ^ (y >> 62)
    }) == x) by (bit_vector);
}

/// A step can be taken back: the three xor-shifts, undone in reverse order,
/// lead from a state to the one before it.
pub proof fn lemma_step_taken_back(s: u64)
    ensures
        ({
            let t = xorshift(s);
            let b = t ^ (t >> 27) ^ (t >> 54);
            let a = b ^ (b << 25) ^ (b << 50);
            a ^ (a >> 12) ^ (a >> 24) ^ (a >> 36) ^ (a >> 48) ^ (a >> 60)
        }) == s,
{
    let a = s ^ (s >> 12);
    let b = a ^ (a << 25);
    lemma_xor_shifts_undone(s);
    lemma_xor_shifts_undone(a);
    lemma_xor_shifts_undone(b);
}

/// The word that was mixed can be read off the mixed one: the xor-shifts and
/// multiplications of splitmix64, undone in reverse order, give it back.
pub proof fn lemma_mixing_undone(z: u64)
    ensures
        ({
            let r = splitmix(z);
            let c = r ^ (r >> 31) ^ (r >> 62);
            let y = c.wrapping_mul(0x3196_42B2_D24D_8EC3u64);
            let b = y ^ (y >> 27) ^ (y >> 54);
            let x = b.wrapping_mul(0x96DE_1B17_3F11_9089u64);
            let a = x ^ (x >> 30) ^ (x >> 60);
            a.wrapping_sub(0x9E37_79B9_7F4A_7C15u64)
        }) == z,
{
    let a = z.wrapping_add(GOLDEN);
    let x = a ^ (a >> 30);
    let b = x.wrapping_mul(0xBF58_476D_1CE4_E5B9u64);
    let y = b ^ (b >> 27);
    let c = y.wrapping_mul(0x94D0_49BB_1331_11EBu64);
    lemma_xor_shifts_undone(a);
    lemma_xor_shifts_undone(b);
    lemma_xor_shifts_undone(c);
    lemma_unit_mul_undone(words(), x as int, 0xBF58_476D_1CE4_E5B9, 0x96DE_1B17_3F11_9089, 8125545580553827436);
    lemma_unit_mul_undone(words(), y as int, 0x94D0_49BB_1331_11EB, 0x3196_42B2_D24D_8EC3, 2077064247507883091);
}

/// The state can be read off the word that it gives.
pub proof fn lemma_output_undone(s: u64)
    ensures
        (output(s) * 0x5907_1D96_D81E_CD35) % words() == s,
        words() == 0x1_0000_0000_0000_0000,
{
    lemma_unit_mul_undone(words(), s as int, 0x2545_F491_4F6C_DD1D, 0x5907_1D96_D81E_CD35, 934034299265436267);
}

/// The word behind a seed moves by a fixed weight with each point and by
/// another with each trial, from a fixed word on.
pub proof fn lemma_seed_word_moves(point: int, trial: int)
    ensures
        seed_word(0, 0) == 0x9E37_79B9_7F4A_7C15,
        seed_word(point + 1, trial) == (seed_word(point, trial) + 0xD1B5_4A32_D192_ED03) % words(),
        seed_word(point, trial + 1) == (seed_word(point, trial) + 0x94D0_49BB_1331_11EB) % words(),
{
    let w = point * POINT_WEIGHT + trial * TRIAL_WEIGHT + GOLDEN;
    assert((point + 1) * POINT_WEIGHT + trial * TRIAL_WEIGHT + GOLDEN == w + POINT_WEIGHT);
    assert(point * POINT_WEIGHT + (trial + 1) * TRIAL_WEIGHT + GOLDEN == w + TRIAL_WEIGHT);
    vstd::arithmetic::div_mod::lemma_add_mod_noop(w, POINT_WEIGHT as int, words());
    vstd::arithmetic::div_mod::lemma_add_mod_noop(w, TRIAL_WEIGHT as int, words());
}

/// A draw below `n` is the remainder of the word: it lies below `n` and
/// differs from the word by a multiple of `n`.
pub proof fn lemma_draw_is_remainder(s: u64, n: u32)
    requires
        n > 0,
    ensures
        below(s, n) < n,
        (output(s) - below(s, n)) % (n as int) == 0,
{
    let w = output(s) as int;
    vstd::arithmetic::div_mod::lemma_fundamental_div_mod(w, n as int);
    vstd::arithmetic::div_mod::lemma_mod_bound(w, n as int);
    vstd::arithmetic::div_mod::lemma_mod_multiples_basic(w / (n as int), n as int);
    assert(w - w % (n as int) == (w / (n as int)) * n) by (nonlinear_arith)
        requires
            w == (n as int) * (w / (n as int)) + w % (n as int),
    ;
}

/// Steps add up: a generator that has taken `m` steps goes on as one started there.
pub proof fn lemma_steps_add(s: u64, m: nat, n: nat)
    ensures
        state_after(s, 0) == s,
        state_after(s, 1) == xorshift(s),
        state_after(s, m + n) == state_after(state_after(s, m), n),
    decreases n,
{
    reveal_with_fuel(state_after, 2);
    if n > 0 {
        lemma_steps_add(s, m, (n - 1) as nat);
        assert((m + n - 1) as nat == m + (n - 1) as nat);
    }
}

/// Only the seed zero is replaced, and by a fixed word that is not zero.
pub proof fn lemma_seed_kept(seed: u64)
    ensures
        seed != 0 ==> initial_state(seed) == seed,
        initial_state(0) == 0x9E37_79B9_7F4A_7C15,
{
}

} // verus!
