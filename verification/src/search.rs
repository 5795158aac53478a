//! Searches by a yes-or-no question or in a table: where a falling curve
//! crosses a threshold, and between which entries a measured value lies.

use vstd::arithmetic::power2::pow2;
use vstd::prelude::*;

verus! {

/// Steps per pixel: every place that a search visits is a whole number of them.
pub const UNIT: u32 = 0x10_0000;

/// The widest place that is looked at, 64 pixels.
pub const CAP: u32 = 0x400_0000;

/// How often the interval is halved.
pub const HALVINGS: u32 = 18;

/// The first of `hi`, `2 * hi`, `4 * hi`, ... where `above` fails, or the cap.
pub open spec fn doubled(above: spec_fn(int) -> bool, hi: int) -> int
    decreases 2 * CAP - hi,
{
    if 0 < hi < CAP && above(hi) {
        doubled(above, 2 * hi)
    } else {
        hi
    }
}

/// The middle of the interval that is left after `n` halvings, each of which
/// keeps the half whose lower end is above and whose upper end is not.
pub open spec fn halved(above: spec_fn(int) -> bool, lo: int, hi: int, n: nat) -> int
    decreases n,
{
    let mid = (lo + hi) / 2;
    if n == 0 {
        mid
    } else if above(mid) {
        halved(above, mid, hi, (n - 1) as nat)
    } else {
        halved(above, lo, mid, (n - 1) as nat)
    }
}

/// Where the curve falls below the threshold; the cap where it never does.
pub open spec fn crossing_place(above: spec_fn(int) -> bool) -> int {
    let hi = doubled(above, UNIT as int);
    if above(hi) {
        CAP as int
    } else if above(hi / 2) {
        halved(above, hi / 2, hi, HALVINGS as nat)
    } else {
        halved(above, 0, hi, HALVINGS as nat)
    }
}

/// A pixel, or twice as much, up to the cap.
spec fn is_power_step(hi: int) -> bool {
    ||| hi == UNIT
    ||| hi == 2 * UNIT
    ||| hi == 4 * UNIT
    ||| hi == 8 * UNIT
    ||| hi == 16 * UNIT
    ||| hi == 32 * UNIT
    ||| hi == CAP
}

/// The answers that `f` gives, as a predicate.
pub open spec fn answers<F: Fn(u32) -> bool>(f: F) -> spec_fn(int) -> bool {
    |x: int| call_ensures(f, (x as u32,), true)
}

/// `f` answers every place up to the cap, and always in the same way.
pub open spec fn is_oracle<F: Fn(u32) -> bool>(f: F) -> bool {
    &&& forall|x: u32| x <= CAP ==> #[trigger] call_requires(f, (x,))
    &&& forall|x: u32| !(#[trigger] call_ensures(f, (x,), true) && call_ensures(f, (x,), false))
}

/// The place, in steps, where a falling curve crosses a threshold; `above`
/// tells whether it is still at or above it.
pub fn crossing<F: Fn(u32) -> bool>(above: F) -> (r: u32)
    requires
        is_oracle(above),
    ensures
        r == crossing_place(answers(above)),
        r <= CAP,
{
    let ghost ask = answers(above);
    let mut hi: u32 = UNIT;
    let mut still: bool = above(hi);
    while still && hi < CAP
        invariant
            is_oracle(above),
            ask == answers(above),
            0 < hi <= CAP,
            is_power_step(hi as int),
            still == ask(hi as int),
            doubled(ask, UNIT as int) == doubled(ask, hi as int),
        decreases CAP - hi,
    {
        hi = hi * 2;
        still = above(hi);
    }
    if still {
        return CAP;
    }
    let mut lo: u32 = hi / 2;
    if !above(lo) {
        lo = 0;
    }
    let mut n: u32 = HALVINGS;
    while n > 0
        invariant
            is_oracle(above),
            ask == answers(above),
            lo <= hi <= CAP,
            n <= HALVINGS,
            crossing_place(ask) == halved(ask, lo as int, hi as int, n as nat),
        decreases n,
    {
        let mid: u32 = (lo + hi) / 2;
        if above(mid) {
            lo = mid;
        } else {
            hi = mid;
        }
        n = n - 1;
    }
    (lo + hi) / 2
}

/// Where a curve is above the threshold up to `c` and nowhere else, the
/// interval closes in on `c`: after `n` halvings of a width of `w * 2^n` its
/// middle is no more than half of `w` away, but for rounding.
proof fn lemma_halving_closes_in(above: spec_fn(int) -> bool, c: int, lo: int, hi: int, n: nat, w: int)
    requires
        forall|x: int| #[trigger] above(x) <==> x < c,
        lo <= c <= hi,
        hi - lo == w * pow2(n),
        w >= 0,
    ensures
        -w - 1 <= 2 * (halved(above, lo, hi, n) - c) <= w,
    decreases n,
{
    vstd::arithmetic::power2::lemma2_to64();
    if n > 0 {
        let m = pow2((n - 1) as nat) as int;
        vstd::arithmetic::power2::lemma_pow2_unfold(n);
        assert(w * (2 * m) == 2 * (w * m)) by (nonlinear_arith);
        let mid = (lo + hi) / 2;
        assert(mid == lo + w * m);
        if above(mid) {
            lemma_halving_closes_in(above, c, mid, hi, (n - 1) as nat, w);
        } else {
            lemma_halving_closes_in(above, c, lo, mid, (n - 1) as nat, w);
        }
    } else {
        assert(w * 1 == w) by (nonlinear_arith);
    }
}

/// The doubling stops at the first stage that is not above.
proof fn lemma_doubling_stops(above: spec_fn(int) -> bool, c: int)
    requires
        forall|x: int| #[trigger] above(x) <==> x < c,
    ensures
        ({
            let hi = doubled(above, UNIT as int);
            &&& is_power_step(hi)
            &&& above(hi) ==> hi == CAP
            &&& !above(hi) && hi > UNIT ==> above(hi / 2)
        }),
{
    reveal_with_fuel(doubled, 8);
}

/// The search finds the crossing to within 64 steps, a sixteenth of a
/// thousandth of a pixel, wherever it lies below the cap, and says so where
/// it does not.
pub proof fn lemma_crossing_found(above: spec_fn(int) -> bool, c: int)
    requires
        forall|x: int| #[trigger] above(x) <==> x < c,
        0 <= c,
    ensures
        c <= CAP ==> -64 <= crossing_place(above) - c <= 64,
        c > CAP ==> crossing_place(above) == CAP,
{
    lemma_doubling_stops(above, c);
    let hi = doubled(above, UNIT as int);
    vstd::arithmetic::power2::lemma2_to64();
    if !above(hi) {
        let lo = if above(hi / 2) {
            hi / 2
        } else {
            0
        };
        let w = (hi - lo) / 0x4_0000;
        assert(hi - lo == w * pow2(18));
        lemma_halving_closes_in(above, c, lo, hi, 18, w);
    }
}

/// The places that a search visits are whole numbers of steps: no halving of
/// an interval whose ends are multiples of `2^(n + 1)` ever rounds.
pub proof fn lemma_halving_exact(lo: int, hi: int, n: nat)
    requires
        lo % (pow2(n + 1) as int) == 0,
        hi % (pow2(n + 1) as int) == 0,
    ensures
        (lo + hi) % 2 == 0,
        n > 0 ==> ((lo + hi) / 2) % (pow2(n) as int) == 0,
{
    let m = pow2(n) as int;
    vstd::arithmetic::power2::lemma_pow2_unfold(n + 1);
    vstd::arithmetic::power2::lemma_pow2_pos(n);
    let a = lo / (2 * m);
    let b = hi / (2 * m);
    vstd::arithmetic::div_mod::lemma_fundamental_div_mod(lo, 2 * m);
    vstd::arithmetic::div_mod::lemma_fundamental_div_mod(hi, 2 * m);
    assert(lo + hi == 2 * (m * (a + b))) by (nonlinear_arith)
        requires
            lo == (2 * m) * a,
            hi == (2 * m) * b,
    ;
    assert((lo + hi) / 2 == m * (a + b));
    vstd::arithmetic::div_mod::lemma_mod_multiples_basic(a + b, m);
    assert(m * (a + b) == (a + b) * m) by (nonlinear_arith);
}

/// Where a value lies in a falling table.
#[derive(Clone, Copy, Debug, PartialEq, Eq, Structural)]
pub enum Place {
    /// At or above the first entry.
    First,
    /// At or below the last entry.
    Last,
    /// Between entry `i` and the next one.
    Between { i: usize },
}

/// Entry `i` is at or above the value and the next one at or below it.
pub open spec fn straddles(keys: Seq<u64>, key: u64, i: int) -> bool {
    keys[i + 1] <= key <= keys[i]
}

/// Where a value lies in a table that falls from entry to entry: at or past
/// one of the ends, or between the first two neighbours that straddle it.
pub fn place_in_table(keys: &[u64], key: u64) -> (r: Place)
    requires
        keys@.len() > 0,
    ensures
        r == Place::First <==> key >= keys@[0],
        r matches Place::Between { i } ==> i + 1 < keys@.len() && key > keys@.last() && straddles(
            keys@,
            key,
            i as int,
        ) && forall|j: int| 0 <= j < i ==> !#[trigger] straddles(keys@, key, j),
        r == Place::Last <==> key < keys@[0] && key <= keys@.last(),
{
    if key >= keys[0] {
        return Place::First;
    }
    let last: usize = keys.len() - 1;
    if key <= keys[last] {
        return Place::Last;
    }
    let mut i: usize = 0;
    while i < last
        invariant
            last == keys@.len() - 1,
            i <= last,
            key < keys@[0],
            key > keys@[last as int],
            forall|j: int| 0 <= j < i ==> !#[trigger] straddles(keys@, key, j),
        decreases last - i,
    {
        if key <= keys[i] && key >= keys[i + 1] {
            assert(straddles(keys@, key, i as int));
            return Place::Between { i };
        }
        i = i + 1;
    }
    proof {
        let j = lemma_table_has_no_gaps(keys@, key);
        assert(straddles(keys@, key, j));
    }
    Place::Last
}

/// Inside a table some two neighbours always straddle the value, so it is
/// never taken for the last entry.
pub proof fn lemma_table_has_no_gaps(keys: Seq<u64>, key: u64) -> (i: int)
    requires
        keys.len() > 0,
        keys.last() < key < keys[0],
    ensures
        0 <= i < keys.len() - 1,
        straddles(keys, key, i),
{
    lemma_gap(keys, key, keys.len() - 1)
}

/// The same for a table that is cut off after entry `n`.
proof fn lemma_gap(keys: Seq<u64>, key: u64, n: int) -> (i: int)
    requires
        0 <= n < keys.len(),
        keys[n] < key < keys[0],
    ensures
        0 <= i < n,
        straddles(keys, key, i),
    decreases n,
{
    if keys[n - 1] >= key {
        n - 1
    } else {
        lemma_gap(keys, key, n - 1)
    }
}

/// `f` holds at `j`.
pub open spec fn holds_at<F: Fn(i32) -> bool>(f: F, j: int) -> bool {
    call_ensures(f, (j as i32,), true)
}

/// The widest unbroken run of places around 0, no further than `reach` to
/// either side, at which `holds` says yes. It says so at 0.
pub fn hold_zone<F: Fn(i32) -> bool>(reach: u16, holds: F) -> (r: (i32, i32))
    requires
        forall|j: i32| -(reach as int) <= j <= reach ==> #[trigger] call_requires(holds, (j,)),
        forall|j: i32|
            !(#[trigger] call_ensures(holds, (j,), true) && call_ensures(holds, (j,), false)),
        holds_at(holds, 0),
    ensures
        -(reach as int) <= r.0 <= 0 <= r.1 <= reach,
        forall|j: int| r.0 <= j <= r.1 ==> #[trigger] holds_at(holds, j),
        r.0 > -(reach as int) ==> !holds_at(holds, r.0 - 1),
        r.1 < reach ==> !holds_at(holds, r.1 + 1),
{
    let mut lo: i32 = 0;
    let mut more: bool = true;
    while more && lo > -(reach as i32)
        invariant
            -(reach as int) <= lo <= 0,
            forall|j: i32| -(reach as int) <= j <= reach ==> #[trigger] call_requires(holds, (j,)),
            forall|j: i32|
                !(#[trigger] call_ensures(holds, (j,), true) && call_ensures(holds, (j,), false)),
            forall|j: int| lo <= j <= 0 ==> #[trigger] holds_at(holds, j),
            !more ==> !holds_at(holds, lo - 1),
        decreases lo + reach, if more { 1int } else { 0 },
    {
        more = holds(lo - 1);
        if more {
            lo = lo - 1;
        }
    }
    let mut hi: i32 = 0;
    more = true;
    while more && hi < reach as i32
        invariant
            lo <= 0 <= hi <= reach,
            forall|j: i32| -(reach as int) <= j <= reach ==> #[trigger] call_requires(holds, (j,)),
            forall|j: i32|
                !(#[trigger] call_ensures(holds, (j,), true) && call_ensures(holds, (j,), false)),
            forall|j: int| lo <= j <= hi ==> #[trigger] holds_at(holds, j),
            !more ==> !holds_at(holds, hi + 1),
        decreases reach - hi, if more { 1int } else { 0 },
    {
        more = holds(hi + 1);
        if more {
            hi = hi + 1;
        }
    }
    (lo, hi)
}

} // verus!
