//! Fixed-point arithmetic for samples and transform coefficients.
//!
//! A sample or coefficient is an `i64` holding the real value scaled by
//! `ONE` (so `ONE` itself stands for 1.0).  Cosine values use the finer
//! scale `COS_ONE`.  Division rounds half away from zero, which is also the
//! rounding used by the coefficient quantizer.

use vstd::prelude::*;

verus! {

/// The fixed-point unit for samples and coefficients: 2^20.
pub const ONE: i64 = 1048576;

/// The fixed-point unit for cosine values: 2^26.
pub const COS_ONE: i64 = 67108864;

/// Magnitude cap on arguments of `round_div`: 2^62.
pub const DIV_LIM: i64 = 0x4000_0000_0000_0000;

/// Division of `a` by `d`, rounding half away from zero.
pub open spec fn rdiv(a: int, d: int) -> int
    recommends
        d >= 1,
{
    if a >= 0 {
        (a + d / 2) / d
    } else {
        -(((-a) + d / 2) / d)
    }
}

/// Clamp `v` into `[lo, hi]`.
pub open spec fn clamp_s(v: int, lo: int, hi: int) -> int {
    if v < lo {
        lo
    } else if v > hi {
        hi
    } else {
        v
    }
}

/// Fixed-point product: `a * b` scaled back down by `ONE`, rounded.
pub open spec fn mulq_s(a: int, b: int) -> int {
    rdiv(a * b, ONE as int)
}


/// The all-zero sequence of a given length.
pub open spec fn zeros(n: int) -> Seq<int> {
    Seq::new(n as nat, |i: int| 0)
}

/// The sequence of `i64` values as mathematical integers.
pub open spec fn ints(s: Seq<i64>) -> Seq<int> {
    s.map_values(|x: i64| x as int)
}

/// Division of `a` by `d`, rounding half away from zero.
pub fn round_div(a: i64, d: i64) -> (r: i64)
    requires
        1 <= d <= DIV_LIM,
        -DIV_LIM <= a <= DIV_LIM,
    ensures
        r == rdiv(a as int, d as int),
{
    let du: u64 = d as u64;
    if a >= 0 {
        let q: u64 = (a as u64 + du / 2) / du;
        q as i64
    } else {
        let q: u64 = ((-a) as u64 + du / 2) / du;
        -(q as i64)
    }
}

/// Fixed-point product of `a` and `b`, rounded.
pub fn mulq(a: i64, b: i64) -> (r: i64)
    requires
        -DIV_LIM <= a * b <= DIV_LIM,
    ensures
        r == mulq_s(a as int, b as int),
{
    let p: i64 = a * b;
    round_div(p, ONE)
}

/// Flooring division of nonnegative `a` by positive `d`.
pub fn floor_div_nn(a: i64, d: i64) -> (r: i64)
    requires
        0 <= a,
        1 <= d,
    ensures
        r == a as int / d as int,
{
    proof {
        vstd::arithmetic::div_mod::lemma_div_pos_is_pos(a as int, d as int);
        vstd::arithmetic::div_mod::lemma_div_is_ordered_by_denominator(a as int, 1, d as int);
        vstd::arithmetic::div_mod::lemma_div_basics(a as int);
    }
    ((a as u64) / (d as u64)) as i64
}

/// Clamp `v` into `[lo, hi]`.
pub fn clamp_i(v: i64, lo: i64, hi: i64) -> (r: i64)
    requires
        lo <= hi,
    ensures
        r == clamp_s(v as int, lo as int, hi as int),
{
    if v < lo {
        lo
    } else if v > hi {
        hi
    } else {
        v
    }
}

/// The magnitude of a rounded quotient is at most the rounded quotient of the
/// magnitude bound.
pub proof fn lemma_rdiv_mag(a: int, d: int, c: int)
    requires
        d >= 1,
        0 <= c,
        -c <= a <= c,
    ensures
        -((c + d / 2) / d) <= rdiv(a, d) <= (c + d / 2) / d,
{
    if a >= 0 {
        vstd::arithmetic::div_mod::lemma_div_is_ordered(a + d / 2, c + d / 2, d);
        vstd::arithmetic::div_mod::lemma_div_pos_is_pos(a + d / 2, d);
    } else {
        vstd::arithmetic::div_mod::lemma_div_is_ordered((-a) + d / 2, c + d / 2, d);
        vstd::arithmetic::div_mod::lemma_div_pos_is_pos((-a) + d / 2, d);
    }
}

/// Dividing `q * d + r` by `d` gives `q` when `0 <= r < d`.
pub proof fn lemma_div_exact_plus(q: int, d: int, r: int)
    requires
        d >= 1,
        0 <= r < d,
    ensures
        (q * d + r) / d == q,
{
    vstd::arithmetic::div_mod::lemma_fundamental_div_mod_converse(q * d + r, d, q, r);
}

/// A fixed-point product with a factor of magnitude at most `ONE` cannot
/// exceed the other factor's magnitude bound.
pub proof fn lemma_mulq_unit_mag(a: int, b: int, c: int)
    requires
        0 <= c,
        -c <= a <= c,
        -(ONE as int) <= b <= ONE as int,
    ensures
        -c <= mulq_s(a, b) <= c,
{
    let u = ONE as int;
    assert(-(c * u) <= a * b <= c * u) by (nonlinear_arith)
        requires
            0 <= c,
            -c <= a <= c,
            -u <= b <= u,
            u == ONE as int,
    ;
    lemma_rdiv_mag(a * b, u, c * u);
    lemma_div_exact_plus(c, u, u / 2);
}

/// A rounded quotient of a nonnegative value is nonnegative.
pub proof fn lemma_rdiv_nonneg(a: int, d: int)
    requires
        d >= 1,
        0 <= a,
    ensures
        0 <= rdiv(a, d),
{
    vstd::arithmetic::div_mod::lemma_div_pos_is_pos(a + d / 2, d);
}

/// Rounding to a multiple of `d` moves a value by at most `d / 2`.
pub proof fn lemma_rdiv_times_mag(a: int, d: int, c: int)
    requires
        d >= 1,
        0 <= c,
        -c <= a <= c,
    ensures
        -(c + d / 2) <= rdiv(a, d) * d <= c + d / 2,
{
    if a >= 0 {
        let x = a + d / 2;
        vstd::arithmetic::div_mod::lemma_fundamental_div_mod(x, d);
        vstd::arithmetic::div_mod::lemma_mod_division_less_than_divisor(x, d);
        vstd::arithmetic::div_mod::lemma_div_pos_is_pos(x, d);
        vstd::arithmetic::mul::lemma_mul_is_commutative(rdiv(a, d), d);
        vstd::arithmetic::mul::lemma_mul_nonnegative(rdiv(a, d), d);
    } else {
        let x = (-a) + d / 2;
        vstd::arithmetic::div_mod::lemma_fundamental_div_mod(x, d);
        vstd::arithmetic::div_mod::lemma_mod_division_less_than_divisor(x, d);
        vstd::arithmetic::div_mod::lemma_div_pos_is_pos(x, d);
        vstd::arithmetic::mul::lemma_mul_is_commutative((x / d), d);
        vstd::arithmetic::mul::lemma_mul_nonnegative(x / d, d);
        vstd::arithmetic::mul::lemma_mul_unary_negation(x / d, d);
    }
}

/// The magnitude of a product is bounded by the product of the bounds.
pub proof fn lemma_mul_mag(a: int, b: int, ca: int, cb: int)
    by (nonlinear_arith)
    requires
        0 <= ca,
        0 <= cb,
        -ca <= a <= ca,
        -cb <= b <= cb,
    ensures
        -(ca * cb) <= a * b <= ca * cb,
{
}

/// Rounding half away from zero maps zero to zero.
pub proof fn lemma_rdiv_zero(d: int)
    requires
        d >= 1,
    ensures
        rdiv(0, d) == 0,
{
    vstd::arithmetic::div_mod::lemma_basic_div(d / 2, d);
}

} // verus!
