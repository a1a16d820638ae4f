//! Powers of two.

use vstd::prelude::*;

verus! {

/// Whether `n` is a power of two.
pub open spec fn is_pow2(n: int) -> bool
    decreases n,
{
    n == 1 || (n > 1 && n % 2 == 0 && is_pow2(n / 2))
}

/// Twice a power of two is a power of two.
pub proof fn lemma_pow2_double(n: int)
    requires
        is_pow2(n),
    ensures
        is_pow2(2 * n),
{
    assert((2 * n) / 2 == n);
}

/// The square of a power of two is a power of two.
pub proof fn lemma_pow2_square(n: int)
    requires
        is_pow2(n),
    ensures
        is_pow2(n * n),
    decreases n,
{
    if n > 1 {
        let half = n / 2;
        lemma_pow2_square(half);
        lemma_pow2_double(half * half);
        lemma_pow2_double(2 * (half * half));
        assert(n * n == 2 * (2 * (half * half))) by (nonlinear_arith)
            requires
                n == 2 * half,
        ;
    } else {
        assert(n * n == 1) by (nonlinear_arith)
            requires
                n == 1,
        ;
    }
}

/// Of two powers of two the larger is at least twice the smaller.
pub proof fn lemma_pow2_gap(a: int, b: int)
    requires
        is_pow2(a),
        is_pow2(b),
        a < b,
    ensures
        2 * a <= b,
    decreases a,
{
    if a > 1 {
        lemma_pow2_gap(a / 2, b / 2);
    }
}

/// A power of two divides every power of two that is not smaller.
pub proof fn lemma_pow2_divides(a: int, b: int)
    requires
        is_pow2(a),
        is_pow2(b),
        a <= b,
    ensures
        b % a == 0,
        (b / a) * a == b,
    decreases b,
{
    if a < b {
        lemma_pow2_gap(a, b);
        lemma_pow2_divides(a, b / 2);
        let q = (b / 2) / a;
        assert(b == (2 * q) * a) by (nonlinear_arith)
            requires
                b == 2 * (b / 2),
                q * a == b / 2,
        ;
        vstd::arithmetic::div_mod::lemma_fundamental_div_mod_converse(b, a, 2 * q, 0);
    } else {
        vstd::arithmetic::div_mod::lemma_fundamental_div_mod_converse(b, a, 1, 0);
    }
}

} // verus!
