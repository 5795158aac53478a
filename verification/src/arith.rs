//! Arithmetic modulo a word size.

use vstd::arithmetic::div_mod::{lemma_fundamental_div_mod, lemma_fundamental_div_mod_converse};
use vstd::prelude::*;

verus! {

/// Multiplying by a unit modulo `m` loses nothing: `inverse` undoes `weight`.
pub proof fn lemma_unit_mul_injective(
    m: int,
    a: int,
    b: int,
    weight: int,
    inverse: int,
    turns: int,
)
    requires
        0 <= a < m,
        0 <= b < m,
        inverse * weight == 1 + turns * m,
        (a * weight) % m == (b * weight) % m,
    ensures
        a == b,
{
    let d = a - b;
    let k = (a * weight) / m - (b * weight) / m;
    assert(d * weight == k * m) by (nonlinear_arith)
        requires
            m > 0,
            d == a - b,
            k == (a * weight) / m - (b * weight) / m,
            (a * weight) % m == (b * weight) % m,
    ;
    let q = inverse * k - turns * d;
    assert(d == q * m) by (nonlinear_arith)
        requires
            d * weight == k * m,
            inverse * weight == 1 + turns * m,
            q == inverse * k - turns * d,
    ;
    assert(q == 0) by (nonlinear_arith)
        requires
            d == q * m,
            -m < d < m,
    ;
}

/// Multiplying by the inverse undoes a multiplication modulo `m`.
pub proof fn lemma_unit_mul_undone(m: int, x: int, w: int, inverse: int, k: int)
    requires
        m > 0,
        0 <= x < m,
        w * inverse == 1 + k * m,
    ensures
        (((x * w) % m) * inverse) % m == x,
{
    let p = x * w;
    let q = p / m;
    lemma_fundamental_div_mod(p, m);
    assert((p % m) * inverse == (x * k - q * inverse) * m + x) by (nonlinear_arith)
        requires
            p == m * q + p % m,
            p == x * w,
            w * inverse == 1 + k * m,
    ;
    lemma_fundamental_div_mod_converse((p % m) * inverse, m, x * k - q * inverse, x);
}

} // verus!
