//! Fixed-point arithmetic: every scalar of the tracer (coordinate, color
//! channel, ray parameter) is an `i64` counted in units of `1 / ONE`.
//! Products and quotients round toward zero, exactly as the specifications
//! `fmul` and `fdiv` say, and the integer square root rounds down.
use vstd::prelude::*;

verus! {

use vstd::arithmetic::div_mod::lemma_fundamental_div_mod;
use vstd::arithmetic::div_mod::lemma_fundamental_div_mod_converse_div;
use vstd::arithmetic::div_mod::lemma_div_is_ordered;
use vstd::arithmetic::div_mod::lemma_div_is_ordered_by_denominator;
use vstd::arithmetic::div_mod::lemma_div_nonincreasing;
use vstd::arithmetic::div_mod::lemma_div_pos_is_pos;
use vstd::arithmetic::div_mod::lemma_div_basics;
use vstd::arithmetic::div_mod::lemma_div_multiples_vanish;
use vstd::arithmetic::mul::lemma_mul_inequality;
use vstd::arithmetic::mul::lemma_mul_unary_negation;

/// Number of fixed-point units that make up the value one.
pub const ONE: i64 = 65536;

/// Magnitude of an integer.
pub open spec fn iabs(x: int) -> int {
    if x < 0 {
        -x
    } else {
        x
    }
}

/// Quotient of `a` by `b` rounded toward zero, the rounding that machine
/// division of signed integers performs.
pub open spec fn tdiv(a: int, b: int) -> int {
    if (a < 0) == (b < 0) {
        iabs(a) / iabs(b)
    } else {
        -(iabs(a) / iabs(b))
    }
}

/// Fixed-point product: the mathematical product scaled back down by `ONE`,
/// rounded toward zero.
pub open spec fn fmul(a: int, b: int) -> int {
    tdiv(a * b, ONE as int)
}

/// Fixed-point quotient: the dividend scaled up by `ONE`, divided rounding
/// toward zero.
pub open spec fn fdiv(a: int, b: int) -> int {
    tdiv(a * ONE, b)
}

/// The rounded-down square root, as the unique natural number whose square
/// brackets `x`.
pub open spec fn sqrt_floor(x: nat) -> nat {
    choose|r: nat| #[trigger] (r * r) <= x && x < (r + 1) * (r + 1)
}

/// Any natural number whose square brackets `x` is `sqrt_floor(x)`.
pub proof fn lemma_sqrt_unique(x: nat, r: nat)
    requires
        r * r <= x,
        x < (r + 1) * (r + 1),
    ensures
        r == sqrt_floor(x),
{
    assert(exists|s: nat| #[trigger] (s * s) <= x && x < (s + 1) * (s + 1)) by {
        assert(r * r <= x && x < (r + 1) * (r + 1));
    }
    let s = sqrt_floor(x);
    assert(s * s <= x && x < (s + 1) * (s + 1));
    assert(r == s) by (nonlinear_arith)
        requires
            r * r <= x,
            x < (r + 1) * (r + 1),
            s * s <= x,
            x < (s + 1) * (s + 1),
            r >= 0,
            s >= 0,
    ;
}

/// Product bound: factors bounded in magnitude give a bounded product.
pub proof fn lemma_mul_bound(x: int, y: int, mx: int, my: int)
    by (nonlinear_arith)
    requires
        -mx <= x <= mx,
        -my <= y <= my,
        0 <= mx,
        0 <= my,
    ensures
        -(mx * my) <= x * y <= mx * my,
{
}

/// Rounding toward zero, characterized by bracketing inequalities
/// (for a positive divisor).
pub proof fn lemma_tdiv(a: int, b: int)
    requires
        b > 0,
    ensures
        a >= 0 ==> 0 <= tdiv(a, b) && b * tdiv(a, b) <= a && a < b * tdiv(a, b) + b,
        a <= 0 ==> tdiv(a, b) <= 0 && a <= b * tdiv(a, b) && b * tdiv(a, b) - b < a,
        iabs(tdiv(a, b)) <= iabs(a),
{
    if a >= 0 {
        lemma_fundamental_div_mod(a, b);
        lemma_div_pos_is_pos(a, b);
        lemma_div_nonincreasing(a, b);
        assert(tdiv(a, b) == a / b);
        if a == 0 {
            lemma_div_basics(b);
        }
    } else {
        let m = -a;
        lemma_fundamental_div_mod(m, b);
        lemma_div_pos_is_pos(m, b);
        lemma_div_nonincreasing(m, b);
        assert(tdiv(a, b) == -(m / b));
        lemma_mul_unary_negation(b, m / b);
        assert(b * -(m / b) == -(b * (m / b)));
    }
}

/// For a positive divisor, comparing an integer against the rounded-down
/// quotient is the same as comparing its multiple against the dividend.
pub proof fn lemma_le_div_iff_mul_le(a: int, b: int, t: int)
    requires
        b > 0,
    ensures
        t <= a / b <==> t * b <= a,
{
    let q = a / b;
    lemma_fundamental_div_mod(a, b);
    if t <= q {
        lemma_mul_inequality(t, q, b);
        assert(q * b == b * q) by (nonlinear_arith);
    }
    if t * b <= a && t > q {
        lemma_mul_inequality(q + 1, t, b);
        assert((q + 1) * b == b * q + b) by (nonlinear_arith);
        assert(false);
    }
}

/// Rounded-down quotients of ordered dividends stay ordered.
pub proof fn lemma_tdiv_ordered(a1: int, a2: int, b: int)
    requires
        0 <= a1 <= a2,
        b > 0,
    ensures
        tdiv(a1, b) <= tdiv(a2, b),
{
    lemma_div_is_ordered(a1, a2, b);
}

/// Rounding toward zero is monotone in the dividend, for a positive divisor.
pub proof fn lemma_tdiv_mono(a1: int, a2: int, b: int)
    requires
        a1 <= a2,
        b > 0,
    ensures
        tdiv(a1, b) <= tdiv(a2, b),
{
    if a1 >= 0 {
        lemma_div_is_ordered(a1, a2, b);
    } else if a2 <= 0 {
        lemma_div_is_ordered(-a2, -a1, b);
    } else {
        lemma_tdiv(a1, b);
        lemma_tdiv(a2, b);
    }
}

/// Rounding toward zero of an exact multiple recovers the factor.
pub proof fn lemma_tdiv_multiple(k: int, b: int)
    requires
        b > 0,
    ensures
        tdiv(k * b, b) == k,
{
    if k >= 0 {
        assert(k * b >= 0) by (nonlinear_arith)
            requires
                k >= 0,
                b > 0,
        ;
        lemma_div_multiples_vanish(k, b);
        assert(b * k == k * b) by (nonlinear_arith);
    } else {
        assert(k * b <= 0 && (-k) * b == -(k * b)) by (nonlinear_arith)
            requires
                k < 0,
                b > 0,
        ;
        lemma_div_multiples_vanish(-k, b);
        assert(b * -k == (-k) * b) by (nonlinear_arith);
    }
}

/// A fixed-point quotient of a numerator no larger than its positive
/// denominator has magnitude at most one, and fits a machine word.
pub proof fn lemma_fdiv_ratio_bounded(c: int, d: int)
    requires
        d >= 1,
        iabs(c) <= d,
    ensures
        iabs(fdiv(c, d)) <= ONE as int,
        i64::MIN <= fdiv(c, d) <= i64::MAX,
{
    lemma_tdiv(c * 65536, d);
    assert(iabs(c * 65536) <= d * 65536) by (nonlinear_arith)
        requires
            iabs(c) <= d,
            d >= 1,
    ;
    lemma_div_is_ordered(iabs(c * 65536), d * 65536, d);
    lemma_div_multiples_vanish(65536, d);
    assert(iabs(fdiv(c, d)) == iabs(c * 65536) / d);
}

/// Fixed-point products of values in the unit interval stay in it, below
/// each factor.
pub proof fn lemma_fmul_unit(a: int, b: int)
    requires
        0 <= a <= ONE,
        0 <= b <= ONE,
    ensures
        0 <= fmul(a, b),
        fmul(a, b) <= a,
        fmul(a, b) <= b,
        fmul(a, b) <= ONE,
{
    lemma_tdiv(a * b, ONE as int);
    assert(0 <= a * b) by (nonlinear_arith)
        requires
            0 <= a,
            0 <= b,
    ;
    assert(a * b <= a * 65536 && a * b <= b * 65536) by (nonlinear_arith)
        requires
            0 <= a <= 65536,
            0 <= b <= 65536,
    ;
    lemma_tdiv_ordered(a * b, a * 65536, 65536);
    lemma_tdiv_ordered(a * b, b * 65536, 65536);
    lemma_tdiv_multiple(a, 65536);
    lemma_tdiv_multiple(b, 65536);
}

/// Fixed-point multiplication by a non-negative factor is monotone over
/// non-negative arguments.
pub proof fn lemma_fmul_mono(k: int, a1: int, a2: int)
    requires
        0 <= k,
        0 <= a1 <= a2,
    ensures
        0 <= fmul(k, a1) <= fmul(k, a2),
{
    assert(0 <= k * a1 && k * a1 <= k * a2) by (nonlinear_arith)
        requires
            0 <= k,
            0 <= a1 <= a2,
    ;
    lemma_tdiv(k * a1, ONE as int);
    lemma_tdiv_ordered(k * a1, k * a2, 65536);
}

/// Fixed-point product of operands of moderate size, with a bound on the
/// result's magnitude.
pub fn fmul_small(a: i64, b: i64) -> (r: i64)
    requires
        iabs(a as int) <= 0x4000_0000,
        iabs(b as int) <= 0x4000_0000,
    ensures
        r as int == fmul(a as int, b as int),
        65536 * iabs(r as int) <= iabs((a as int) * (b as int)),
        iabs(r as int) <= 0x1000_0000_0000,
{
    proof {
        lemma_mul_bound(a as int, b as int, 0x4000_0000, 0x4000_0000);
        lemma_tdiv((a as int) * (b as int), ONE as int);
        let p = (a as int) * (b as int);
        if p >= 0 {
            assert(65536 * iabs(tdiv(p, 65536)) <= iabs(p));
        } else {
            assert(65536 * iabs(tdiv(p, 65536)) <= iabs(p));
        }
    }
    fp_mul(a, b)
}

/// Fixed-point quotient of a moderate numerator by a positive denominator.
pub fn fdiv_small(a: i64, b: i64) -> (r: i64)
    requires
        iabs(a as int) <= 0x4000_0000_0000,
        b >= 1,
    ensures
        r as int == fdiv(a as int, b as int),
        iabs(r as int) <= 65536 * iabs(a as int),
{
    proof {
        lemma_mul_bound(a as int, ONE as int, 0x4000_0000_0000, 65536);
        lemma_tdiv((a as int) * (ONE as int), b as int);
        assert(iabs((a as int) * 65536) == 65536 * iabs(a as int)) by (nonlinear_arith);
    }
    fp_div(a, b)
}

/// Truncating division of signed machine words, with its exact result.
pub fn div_trunc(a: i128, b: i128) -> (q: i128)
    requires
        b != 0,
        !(a == i128::MIN && b == -1),
    ensures
        q as int == tdiv(a as int, b as int),
{
    proof {
        let ai = a as int;
        let bi = b as int;
        let n = iabs(bi);
        lemma_div_pos_is_pos(iabs(ai), n);
        lemma_div_nonincreasing(iabs(ai), n);
        if ai == 0 {
            lemma_div_basics(n);
        }
        // The magnitude of the quotient fits: it shrinks unless b is 1.
        if a == i128::MIN {
            if n >= 2 {
                lemma_div_is_ordered_by_denominator(iabs(ai), 2, n);
                lemma_fundamental_div_mod(iabs(ai), 2);
            } else {
                lemma_div_basics(iabs(ai));
            }
        }
        // Bridge the truncating quotient to the library's description of
        // checked division, which is phrased over Euclidean division of
        // sign-adjusted operands.
        if ai < 0 && bi > 0 {
            assert(ai * -1 == iabs(ai));
            assert(tdiv(ai, bi) == ((ai * -1) / bi) * -1);
        } else if ai < 0 && bi < 0 {
            assert(tdiv(ai, bi) == (ai * -1) / (bi * -1));
        } else if ai > 0 && bi < 0 {
            assert(tdiv(ai, bi) == (ai / (bi * -1)) * -1);
        }
    }
    a.checked_div(b).unwrap()
}

/// Fixed-point multiplication.
pub fn fp_mul(a: i64, b: i64) -> (r: i64)
    requires
        i64::MIN <= fmul(a as int, b as int) <= i64::MAX,
    ensures
        r as int == fmul(a as int, b as int),
{
    proof {
        lemma_mul_bound(
            a as int,
            b as int,
            0x8000_0000_0000_0000,
            0x8000_0000_0000_0000,
        );
    }
    let p: i128 = (a as i128) * (b as i128);
    let q = div_trunc(p, ONE as i128);
    q as i64
}

/// Fixed-point division.
pub fn fp_div(a: i64, b: i64) -> (r: i64)
    requires
        b != 0,
        i64::MIN <= fdiv(a as int, b as int) <= i64::MAX,
    ensures
        r as int == fdiv(a as int, b as int),
{
    proof {
        lemma_mul_bound(a as int, ONE as int, 0x8000_0000_0000_0000, 65536);
    }
    let p: i128 = (a as i128) * (ONE as i128);
    let q = div_trunc(p, b as i128);
    q as i64
}

/// Rounded-up quotient for a positive divisor, written through the
/// rounded-down quotient of the negated dividend.
pub open spec fn cdiv(a: int, b: int) -> int {
    -((-a) / b)
}

/// For a positive divisor, comparing an integer against the rounded-up
/// quotient is the same as comparing its multiple against the dividend.
pub proof fn lemma_ge_cdiv_iff_mul_ge(a: int, b: int, t: int)
    requires
        b > 0,
    ensures
        t >= cdiv(a, b) <==> t * b >= a,
{
    lemma_le_div_iff_mul_le(-a, b, -t);
    assert((-t) * b == -(t * b)) by (nonlinear_arith);
}

/// Parity through halving: `s` is even exactly when twice its half gives it
/// back.
pub proof fn lemma_even_halves(s: int)
    ensures
        (s % 2 == 0) <==> (2 * (s / 2) == s),
{
    lemma_fundamental_div_mod(s, 2);
}

/// Euclidean (rounded-down) division of wide words, for a positive divisor.
pub fn div_floor(a: i128, b: i128) -> (q: i128)
    requires
        b > 0,
        -0x1_0000_0000_0000_0000_0000_0000 <= a <= 0x1_0000_0000_0000_0000_0000_0000,
    ensures
        q as int == a as int / b as int,
        -iabs(a as int) <= q as int <= iabs(a as int),
{
    let qt = div_trunc(a, b);
    proof {
        lemma_tdiv(a as int, b as int);
        if a < 0 {
            // Dividing by at least one cannot push a negative below itself.
            lemma_le_div_iff_mul_le(a as int, b as int, a as int);
            assert((a as int) * (b as int) <= a as int) by (nonlinear_arith)
                requires
                    a as int <= 0,
                    b as int >= 1,
            ;
        } else {
            lemma_div_pos_is_pos(a as int, b as int);
            lemma_div_nonincreasing(a as int, b as int);
        }
        // The product of the divisor and the truncated quotient keeps the
        // dividend's sign and cannot pass it.
        let ai = a as int;
        let bi = b as int;
        let qi = qt as int;
        if ai >= 0 {
            assert(0 <= bi * qi) by (nonlinear_arith)
                requires
                    bi > 0,
                    qi >= 0,
            ;
        } else {
            assert(bi * qi <= 0) by (nonlinear_arith)
                requires
                    bi > 0,
                    qi <= 0,
            ;
        }
        assert(qi * bi == bi * qi);
    }
    let r = a - qt * b;
    proof {
        if r >= 0 {
            lemma_fundamental_div_mod_converse_div(a as int, b as int, qt as int, r as int);
        } else {
            assert((qt as int - 1) * b == qt as int * b - b) by (nonlinear_arith);
            lemma_fundamental_div_mod_converse_div(
                a as int,
                b as int,
                qt as int - 1,
                r as int + b as int,
            );
        }
    }
    if r < 0 {
        qt - 1
    } else {
        qt
    }
}

/// Rounded-up division of wide words, for a positive divisor.
pub fn div_ceil_wide(a: i128, b: i128) -> (q: i128)
    requires
        b > 0,
        -0x1_0000_0000_0000_0000_0000_0000 <= a <= 0x1_0000_0000_0000_0000_0000_0000,
    ensures
        q as int == cdiv(a as int, b as int),
        -iabs(a as int) <= q as int <= iabs(a as int),
{
    let nf = div_floor(-a, b);
    proof {
        let m = -(a as int);
        lemma_le_div_iff_mul_le(m, b as int, -0x1_0000_0000_0000_0000_0000_0000);
        assert((-0x1_0000_0000_0000_0000_0000_0000) * (b as int)
            <= -0x1_0000_0000_0000_0000_0000_0000) by (nonlinear_arith)
            requires
                b as int >= 1,
        ;
        if m >= 0 {
            lemma_div_nonincreasing(m, b as int);
        } else {
            lemma_le_div_iff_mul_le(m, b as int, 1);
        }
    }
    -nf
}

/// Rounded-down square root of a machine word.
pub fn isqrt(x: u128) -> (r: u128)
    ensures
        r as nat == sqrt_floor(x as nat),
        (r as int) * (r as int) <= x as int,
        (x as int) < (r as int + 1) * (r as int + 1),
{
    let mut lo: u128 = 0;
    let mut hi: u128 = 0x1_0000_0000_0000_0000;
    proof {
        assert((hi as int) * (hi as int) > x as int) by (nonlinear_arith)
            requires
                hi as int == 0x1_0000_0000_0000_0000,
                (x as int) < (0x1_0000_0000_0000_0000 * 0x1_0000_0000_0000_0000),
        ;
    }
    while lo + 1 < hi
        invariant
            lo < hi <= 0x1_0000_0000_0000_0000u128,
            (lo as int) * (lo as int) <= x as int,
            (hi as int) * (hi as int) > x as int,
        decreases hi - lo,
    {
        let mid = lo + (hi - lo) / 2;
        proof {
            assert((mid as int) * (mid as int) < (0x1_0000_0000_0000_0000
                * 0x1_0000_0000_0000_0000)) by (nonlinear_arith)
                requires
                    0 <= (mid as int) < 0x1_0000_0000_0000_0000,
            ;
        }
        if mid * mid <= x {
            lo = mid;
        } else {
            hi = mid;
        }
    }
    proof {
        lemma_sqrt_unique(x as nat, lo as nat);
    }
    lo
}

} // verus!
