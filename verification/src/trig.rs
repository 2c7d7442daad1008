//! Integer cosine evaluation and the transform's cosine table.
//!
//! The transform engine needs `cos(pi * t / (2 * m))` for table indices
//! `t` in `[0, 4 * m)`.  Each value is reduced to a quarter-wave angle in
//! `[0, pi / 2]` and evaluated by a truncated even power series in
//! fixed-point arithmetic.  Angles and series terms use the scale `Q30`;
//! table entries are delivered at the coarser scale `fixed::COS_ONE`.

use vstd::prelude::*;

use crate::fixed::COS_ONE;
use crate::fixed::lemma_rdiv_mag;
use crate::fixed::rdiv;
use crate::fixed::round_div;

verus! {

/// The fixed-point unit for angles and series terms: 2^30.
pub const Q30: i64 = 1073741824;

/// The half turn pi at scale `Q30`.
pub const PI_Q30: i64 = 3373259426;

/// Largest angle handed to the power series: slightly above pi/2 at `Q30`.
pub const ANGLE_MAX: i64 = 1686700000;

/// Bound on the squared angle at scale `Q30`.
pub const ZSQ_MAX: i64 = 2650000000;

/// One factor of the nested power series:
/// `Q30 - (z * u) / (Q30 * d)`, rounded.
pub open spec fn poly_step_s(z: int, u: int, d: int) -> int {
    Q30 - rdiv(z * u, Q30 * d)
}

/// The truncated even power series for cosine at scale `Q30`,
/// for angles `x` in `[0, pi / 2]` at scale `Q30`.
pub open spec fn cos_poly_s(x: int) -> int {
    let z = rdiv(x * x, Q30 as int);
    poly_step_s(
        z,
        poly_step_s(
            z,
            poly_step_s(z, poly_step_s(z, poly_step_s(z, poly_step_s(z, Q30 as int, 132), 90), 56), 30),
            12,
        ),
        2,
    )
}

/// Bounds for one series factor: the subtracted quotient is nonnegative
/// and at most `ZSQ_MAX / d + 1`.
proof fn lemma_step_bound(z: int, u: int, d: int)
    requires
        0 <= z <= ZSQ_MAX,
        0 <= u <= Q30,
        2 <= d <= 132,
    ensures
        0 <= rdiv(z * u, Q30 * d) <= ZSQ_MAX as int / d + 1,
{
    let a = z * u;
    let dd = Q30 * d;
    assert(0 <= a <= (ZSQ_MAX as int) * (Q30 as int)) by (nonlinear_arith)
        requires
            0 <= z <= ZSQ_MAX,
            0 <= u <= Q30,
            a == z * u,
    ;
    assert(2 * (Q30 as int) <= dd <= 132 * (Q30 as int)) by (nonlinear_arith)
        requires
            2 <= d <= 132,
            dd == Q30 * d,
    ;
    // rdiv(a, dd) == (a + dd/2) / dd here since a >= 0
    vstd::arithmetic::div_mod::lemma_div_pos_is_pos(a + dd / 2, dd);
    vstd::arithmetic::div_mod::lemma_div_is_ordered(a + dd / 2, a + dd, dd);
    vstd::arithmetic::div_mod::lemma_div_plus_one(a, dd);
    vstd::arithmetic::div_mod::lemma_div_is_ordered(a, (ZSQ_MAX as int) * (Q30 as int), dd);
    // (ZSQ_MAX * Q30) / (Q30 * d) == ZSQ_MAX / d
    vstd::arithmetic::div_mod::lemma_div_denominator((ZSQ_MAX as int) * (Q30 as int), Q30 as int, d);
    vstd::arithmetic::mul::lemma_mul_is_commutative(ZSQ_MAX as int, Q30 as int);
    vstd::arithmetic::div_mod::lemma_div_multiples_vanish(ZSQ_MAX as int, Q30 as int);
}

/// One factor of the nested power series.
fn poly_step(z: i64, u: i64, d: i64) -> (r: i64)
    requires
        0 <= z <= ZSQ_MAX,
        0 <= u <= Q30,
        2 <= d <= 132,
    ensures
        r == poly_step_s(z as int, u as int, d as int),
        Q30 - (ZSQ_MAX as int / d as int + 1) <= r <= Q30,
{
    proof {
        lemma_step_bound(z as int, u as int, d as int);
        assert((z as int) * (u as int) <= (ZSQ_MAX as int) * (Q30 as int)) by (nonlinear_arith)
            requires
                0 <= z <= ZSQ_MAX,
                0 <= u <= Q30,
        ;
        assert((Q30 as int) * 2 <= (Q30 as int) * (d as int) <= (Q30 as int) * 132)
            by (nonlinear_arith)
            requires
                2 <= d <= 132,
        ;
    }
    let zu: i64 = z * u;
    let q: i64 = round_div(zu, Q30 * d);
    Q30 - q
}

/// The truncated even power series for cosine at scale `Q30`.
fn cos_poly(x: i64) -> (r: i64)
    requires
        0 <= x <= ANGLE_MAX,
    ensures
        r == cos_poly_s(x as int),
        -Q30 <= r <= Q30,
{
    proof {
        assert((x as int) * (x as int) <= (ANGLE_MAX as int) * (ANGLE_MAX as int))
            by (nonlinear_arith)
            requires
                0 <= x <= ANGLE_MAX,
        ;
        lemma_rdiv_mag((x as int) * (x as int), Q30 as int, (ANGLE_MAX as int) * (ANGLE_MAX as int));
        vstd::arithmetic::div_mod::lemma_div_pos_is_pos((x as int) * (x as int) + Q30 as int / 2, Q30 as int);
    }
    let z: i64 = round_div(x * x, Q30);
    let u1: i64 = poly_step(z, Q30, 132);
    let u2: i64 = poly_step(z, u1, 90);
    let u3: i64 = poly_step(z, u2, 56);
    let u4: i64 = poly_step(z, u3, 30);
    let u5: i64 = poly_step(z, u4, 12);
    poly_step(z, u5, 2)
}

/// The quarter-wave angle `pi * w / (2 * m)` at scale `Q30`, rounded.
pub open spec fn angle_s(w: int, m: int) -> int {
    rdiv(w * PI_Q30, 2 * m)
}

/// `cos(pi * t / (2 * m))` at scale `COS_ONE` for a table index
/// `t` in `[0, 4 * m)`: quarter-wave reduction around the circle, then the
/// power series, then the change of scale.
pub open spec fn cos_entry_s(t: int, m: int) -> int {
    if t <= m {
        rdiv(cos_poly_s(angle_s(t, m)), 16)
    } else if t <= 2 * m {
        -rdiv(cos_poly_s(angle_s(2 * m - t, m)), 16)
    } else if t <= 3 * m {
        -rdiv(cos_poly_s(angle_s(t - 2 * m, m)), 16)
    } else {
        rdiv(cos_poly_s(angle_s(4 * m - t, m)), 16)
    }
}

/// The whole cosine table for transform size `m`.
pub open spec fn cos_table_s(m: int) -> Seq<int> {
    Seq::new((4 * m) as nat, |t: int| cos_entry_s(t, m))
}

/// The quarter-wave angle stays within `ANGLE_MAX`.
proof fn lemma_angle_max(w: int, m: int)
    requires
        1 <= m <= 256,
        0 <= w <= m,
    ensures
        0 <= angle_s(w, m) <= ANGLE_MAX,
{
    let a = w * PI_Q30;
    let d = 2 * m;
    assert(0 <= a <= m * (PI_Q30 as int)) by (nonlinear_arith)
        requires
            0 <= w <= m,
            a == w * PI_Q30,
    ;
    vstd::arithmetic::div_mod::lemma_div_pos_is_pos(a + d / 2, d);
    vstd::arithmetic::div_mod::lemma_div_is_ordered(a + d / 2, a + d, d);
    vstd::arithmetic::div_mod::lemma_div_plus_one(a, d);
    vstd::arithmetic::div_mod::lemma_div_is_ordered(a, m * (PI_Q30 as int), d);
    // (m * PI_Q30) / (2 * m) == PI_Q30 / 2
    vstd::arithmetic::div_mod::lemma_div_denominator(m * (PI_Q30 as int), m, 2);
    vstd::arithmetic::mul::lemma_mul_is_commutative(m, PI_Q30 as int);
    vstd::arithmetic::div_mod::lemma_div_multiples_vanish(PI_Q30 as int, m);
    assert(m * 2 == 2 * m);
}

/// The quarter-wave angle for table index `w`.
fn angle(w: usize, m: usize) -> (r: i64)
    requires
        1 <= m <= 256,
        w <= m,
    ensures
        r == angle_s(w as int, m as int),
        0 <= r <= ANGLE_MAX,
{
    proof {
        lemma_angle_max(w as int, m as int);
    }
    round_div((w as i64) * PI_Q30, 2 * (m as i64))
}

/// One table entry at scale `COS_ONE`.
fn cos_entry(t: usize, m: usize) -> (r: i64)
    requires
        1 <= m <= 256,
        t < 4 * m,
    ensures
        r == cos_entry_s(t as int, m as int),
        -COS_ONE <= r <= COS_ONE,
{
    let p: i64 = if t <= m {
        cos_poly(angle(t, m))
    } else if t <= 2 * m {
        cos_poly(angle(2 * m - t, m))
    } else if t <= 3 * m {
        cos_poly(angle(t - 2 * m, m))
    } else {
        cos_poly(angle(4 * m - t, m))
    };
    proof {
        lemma_rdiv_mag(p as int, 16, Q30 as int);
    }
    let c: i64 = round_div(p, 16);
    if t <= m || t > 3 * m {
        c
    } else {
        -c
    }
}

/// Build the cosine table for transform size `m`.
pub fn build_cos_table(m: usize) -> (tbl: Vec<i64>)
    requires
        1 <= m <= 256,
    ensures
        tbl@.len() == 4 * m,
        forall|t: int| 0 <= t < 4 * m ==> tbl@[t] == cos_entry_s(t, m as int),
        forall|t: int| 0 <= t < 4 * m ==> -COS_ONE <= #[trigger] tbl@[t] <= COS_ONE,
{
    let mut tbl: Vec<i64> = Vec::new();
    let mut t: usize = 0;
    while t < 4 * m
        invariant
            1 <= m <= 256,
            t <= 4 * m,
            tbl@.len() == t,
            forall|j: int| 0 <= j < t ==> tbl@[j] == cos_entry_s(j, m as int),
            forall|j: int| 0 <= j < t ==> -COS_ONE <= #[trigger] tbl@[j] <= COS_ONE,
        decreases 4 * m - t,
    {
        let c = cos_entry(t, m);
        tbl.push(c);
        t = t + 1;
    }
    tbl
}

} // verus!
