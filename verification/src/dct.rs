//! Transform engine: forward and inverse cosine transforms of a fixed size.
//!
//! The forward transform is the even type-II cosine sum scaled by `2 / m`;
//! the inverse is the type-III sum.  In exact arithmetic the two compose to
//! the identity; in fixed point they compose to the identity within a few
//! rounding units.  Both directions are pure functions of the input and the
//! cosine table, which is itself a pure function of the transform size.

use vstd::prelude::*;

use crate::fixed::COS_ONE;
use crate::fixed::DIV_LIM;
use crate::fixed::ints;
use crate::fixed::lemma_mul_mag;
use crate::fixed::rdiv;
use crate::fixed::round_div;
use crate::trig::build_cos_table;
use crate::trig::cos_table_s;

verus! {

/// Magnitude cap on forward-transform input samples.
pub const FWD_IN_LIMIT: i64 = 134217728;

/// Magnitude cap on forward-transform output coefficients.
pub const COEF_RAW_LIMIT: i64 = 268435457;

/// Magnitude cap on inverse-transform input coefficients.
pub const COEF_LIMIT: i64 = 268470000;

/// Magnitude cap on inverse-transform output samples.
pub const Y_LIMIT: i64 = 68700000000;

/// The table value standing for `cos(pi * (a * b) / (2 * m))`.
pub open spec fn cos_at(tbl: Seq<int>, a: int, b: int) -> int {
    tbl[(a * b) % (tbl.len() as int)]
}

/// Partial type-II sum: terms `x[i] * cos(pi * (2 i + 1) * k / (2 m))`
/// for `i` below `j`.
pub open spec fn fwd_sum(x: Seq<int>, tbl: Seq<int>, k: int, j: int) -> int
    decreases j,
{
    if j <= 0 {
        0
    } else {
        fwd_sum(x, tbl, k, j - 1) + x[j - 1] * cos_at(tbl, 2 * (j - 1) + 1, k)
    }
}

/// The forward transform: type-II sums scaled by `2 / m`
/// (the division by `m * 2^25` folds the scale `COS_ONE` and `2 / m`
/// into one rounded step).
pub open spec fn dct_fwd(x: Seq<int>, tbl: Seq<int>) -> Seq<int> {
    Seq::new(x.len(), |k: int| rdiv(fwd_sum(x, tbl, k, x.len() as int), (x.len() as int) * 33554432))
}

/// Partial type-III sum: terms `c[i] * cos(pi * (2 j + 1) * i / (2 m))`
/// for `i` from 1 below `k`.
pub open spec fn inv_sum(c: Seq<int>, tbl: Seq<int>, j: int, k: int) -> int
    decreases k,
{
    if k <= 1 {
        0
    } else {
        inv_sum(c, tbl, j, k - 1) + c[k - 1] * cos_at(tbl, 2 * j + 1, k - 1)
    }
}

/// The inverse transform: `c[0] / 2` plus the type-III sum, brought back
/// from the cosine scale in one rounded step.
pub open spec fn dct_inv(c: Seq<int>, tbl: Seq<int>) -> Seq<int> {
    Seq::new(c.len(), |j: int| rdiv(c[0] * 33554432 + inv_sum(c, tbl, j, c.len() as int), COS_ONE as int))
}

/// `rdiv` of a sum of `m` bounded terms by `m * 2^25` stays within
/// `2 * b / COS_ONE`-style limits: the common factor `m` cancels.
proof fn lemma_fwd_out_bound(a: int, m: int)
    requires
        1 <= m <= 256,
        -(m * (FWD_IN_LIMIT as int * COS_ONE as int)) <= a <= m * (FWD_IN_LIMIT as int * COS_ONE as int),
    ensures
        -COEF_RAW_LIMIT <= rdiv(a, m * 33554432) <= COEF_RAW_LIMIT,
        -DIV_LIM <= a <= DIV_LIM,
        1 <= m * 33554432 <= DIV_LIM,
{
    let t = FWD_IN_LIMIT as int * COS_ONE as int;
    let d = m * 33554432;
    vstd::arithmetic::mul::lemma_mul_inequality(m, 256, t);
    assert(33554432 <= d <= 256 * 33554432) by (nonlinear_arith)
        requires
            1 <= m <= 256,
            d == m * 33554432,
    ;
    let bound = (m * t + d / 2) / d;
    crate::fixed::lemma_rdiv_mag(a, d, m * t);
    // bound <= (m * t) / d + 1 == t / 33554432 + 1
    vstd::arithmetic::div_mod::lemma_div_is_ordered(m * t + d / 2, m * t + d, d);
    vstd::arithmetic::div_mod::lemma_div_plus_one(m * t, d);
    vstd::arithmetic::div_mod::lemma_div_denominator(m * t, m, 33554432);
    vstd::arithmetic::mul::lemma_mul_is_commutative(m, t);
    vstd::arithmetic::div_mod::lemma_div_multiples_vanish(t, m);
    assert(bound <= t / 33554432 + 1);
}

/// Transform engine of one fixed size, carrying its cosine table.
pub struct DCT {
    /// The transform size.
    pub m: usize,
    /// The cosine table for that size.
    pub tbl: Vec<i64>,
}

impl DCT {
    /// The engine's table is the canonical table of its size.
    pub open spec fn wf(&self) -> bool {
        &&& 1 <= self.m <= 256
        &&& self.tbl@.len() == 4 * self.m
        &&& ints(self.tbl@) == cos_table_s(self.m as int)
        &&& forall|t: int|
            0 <= t < self.tbl@.len() ==> -COS_ONE <= #[trigger] self.tbl@[t] <= COS_ONE
    }

    /// Build the engine for transform size `m`.
    pub fn new(m: usize) -> (r: DCT)
        requires
            1 <= m <= 256,
        ensures
            r.wf(),
            r.m == m,
    {
        let tbl = build_cos_table(m);
        proof {
            assert(ints(tbl@) =~= cos_table_s(m as int));
        }
        DCT { m, tbl }
    }

    /// Forward type-II transform, scaled by `2 / m`.
    pub fn dct(&self, input: &Vec<i64>, output: &mut Vec<i64>)
        requires
            self.wf(),
            input@.len() == self.m,
            old(output)@.len() == self.m,
            forall|i: int|
                0 <= i < input@.len() ==> -FWD_IN_LIMIT <= #[trigger] input@[i] <= FWD_IN_LIMIT,
        ensures
            final(output)@.len() == self.m,
            ints(final(output)@) == dct_fwd(ints(input@), cos_table_s(self.m as int)),
            forall|k: int|
                0 <= k < final(output)@.len() ==> -COEF_RAW_LIMIT <= #[trigger] final(output)@[k]
                    <= COEF_RAW_LIMIT,
    {
        let m = self.m;
        let fourm = 4 * m;
        let ghost x = ints(input@);
        let ghost tbl = cos_table_s(self.m as int);
        let mut k: usize = 0;
        while k < m
            invariant
                self.wf(),
                m == self.m,
                fourm == 4 * m,
                x == ints(input@),
                tbl == cos_table_s(self.m as int),
                input@.len() == m,
                output@.len() == m,
                forall|i: int|
                    0 <= i < input@.len() ==> -FWD_IN_LIMIT <= #[trigger] input@[i] <= FWD_IN_LIMIT,
                k <= m,
                forall|i: int| 0 <= i < k ==> output@[i] == dct_fwd(x, tbl)[i],
                forall|i: int|
                    0 <= i < k ==> -COEF_RAW_LIMIT <= #[trigger] output@[i] <= COEF_RAW_LIMIT,
            decreases m - k,
        {
            let mut acc: i64 = 0;
            let mut j: usize = 0;
            while j < m
                invariant
                    self.wf(),
                    m == self.m,
                    fourm == 4 * m,
                    x == ints(input@),
                    tbl == cos_table_s(self.m as int),
                    input@.len() == m,
                    k < m,
                    j <= m,
                    acc == fwd_sum(x, tbl, k as int, j as int),
                    forall|i: int|
                        0 <= i < input@.len() ==> -FWD_IN_LIMIT <= #[trigger] input@[i]
                            <= FWD_IN_LIMIT,
                    -(j * (FWD_IN_LIMIT as int * COS_ONE as int)) <= acc <= j * (FWD_IN_LIMIT as int
                        * COS_ONE as int),
                decreases m - j,
            {
                proof {
                    assert((2 * j as int + 1) * k as int <= 131072) by (nonlinear_arith)
                        requires
                            0 <= j < 256,
                            0 <= k < 256,
                    ;
                    assert(0 <= (2 * j as int + 1) * k as int) by (nonlinear_arith)
                        requires
                            0 <= j,
                            0 <= k,
                    ;
                }
                let idx = ((2 * j + 1) * k) % fourm;
                proof {
                    vstd::arithmetic::div_mod::lemma_mod_division_less_than_divisor(
                        ((2 * j + 1) * k) as int,
                        fourm as int,
                    );
                    lemma_mul_mag(x[j as int], tbl[idx as int], FWD_IN_LIMIT as int, COS_ONE as int);
                    assert(x[j as int] == input@[j as int]);
                    assert(tbl[idx as int] == self.tbl@[idx as int]);
                    assert((j as int + 1) * (FWD_IN_LIMIT as int * COS_ONE as int) == j as int * (
                    FWD_IN_LIMIT as int * COS_ONE as int) + FWD_IN_LIMIT as int * COS_ONE as int)
                        by (nonlinear_arith);
                }
                let term: i64 = input[j] * self.tbl[idx];
                acc = acc + term;
                j = j + 1;
            }
            proof {
                lemma_fwd_out_bound(acc as int, m as int);
            }
            let v = round_div(acc, (m as i64) * 33554432);
            output[k] = v;
            proof {
                assert(dct_fwd(x, tbl)[k as int] == rdiv(
                    fwd_sum(x, tbl, k as int, m as int),
                    (m as int) * 33554432,
                ));
            }
            k = k + 1;
        }
        proof {
            assert(ints(output@) =~= dct_fwd(x, tbl));
        }
    }

    /// Inverse type-III transform.
    pub fn idct(&self, input: &Vec<i64>, output: &mut Vec<i64>)
        requires
            self.wf(),
            input@.len() == self.m,
            old(output)@.len() == self.m,
            forall|i: int|
                0 <= i < input@.len() ==> -COEF_LIMIT <= #[trigger] input@[i] <= COEF_LIMIT,
        ensures
            final(output)@.len() == self.m,
            ints(final(output)@) == dct_inv(ints(input@), cos_table_s(self.m as int)),
            forall|j: int|
                0 <= j < final(output)@.len() ==> -Y_LIMIT <= #[trigger] final(output)@[j]
                    <= Y_LIMIT,
    {
        let m = self.m;
        let fourm = 4 * m;
        let ghost c = ints(input@);
        let ghost tbl = cos_table_s(self.m as int);
        let mut j: usize = 0;
        while j < m
            invariant
                self.wf(),
                m == self.m,
                fourm == 4 * m,
                c == ints(input@),
                tbl == cos_table_s(self.m as int),
                input@.len() == m,
                output@.len() == m,
                forall|i: int|
                    0 <= i < input@.len() ==> -COEF_LIMIT <= #[trigger] input@[i] <= COEF_LIMIT,
                j <= m,
                forall|i: int| 0 <= i < j ==> output@[i] == dct_inv(c, tbl)[i],
                forall|i: int| 0 <= i < j ==> -Y_LIMIT <= #[trigger] output@[i] <= Y_LIMIT,
            decreases m - j,
        {
            let mut acc: i64 = input[0] * 33554432;
            let mut k: usize = 1;
            while k < m
                invariant
                    self.wf(),
                    m == self.m,
                    fourm == 4 * m,
                    c == ints(input@),
                    tbl == cos_table_s(self.m as int),
                    input@.len() == m,
                    j < m,
                    1 <= k <= m,
                    acc == c[0] * 33554432 + inv_sum(c, tbl, j as int, k as int),
                    forall|i: int|
                        0 <= i < input@.len() ==> -COEF_LIMIT <= #[trigger] input@[i] <= COEF_LIMIT,
                    -(COEF_LIMIT as int * 33554432 + (k - 1) * (COEF_LIMIT as int * COS_ONE as int))
                        <= acc <= COEF_LIMIT as int * 33554432 + (k - 1) * (COEF_LIMIT as int
                        * COS_ONE as int),
                decreases m - k,
            {
                proof {
                    assert((2 * j as int + 1) * k as int <= 131072) by (nonlinear_arith)
                        requires
                            0 <= j < 256,
                            0 <= k < 256,
                    ;
                    assert(0 <= (2 * j as int + 1) * k as int) by (nonlinear_arith)
                        requires
                            0 <= j,
                            0 <= k,
                    ;
                }
                let idx = ((2 * j + 1) * k) % fourm;
                proof {
                    vstd::arithmetic::div_mod::lemma_mod_division_less_than_divisor(
                        ((2 * j + 1) * k) as int,
                        fourm as int,
                    );
                    lemma_mul_mag(c[k as int], tbl[idx as int], COEF_LIMIT as int, COS_ONE as int);
                    assert(c[k as int] == input@[k as int]);
                    assert(tbl[idx as int] == self.tbl@[idx as int]);
                    assert(k as int * (COEF_LIMIT as int * COS_ONE as int) == (k as int - 1) * (
                    COEF_LIMIT as int * COS_ONE as int) + COEF_LIMIT as int * COS_ONE as int)
                        by (nonlinear_arith);
                }
                let term: i64 = input[k] * self.tbl[idx];
                acc = acc + term;
                k = k + 1;
            }
            proof {
                crate::fixed::lemma_rdiv_mag(
                    acc as int,
                    COS_ONE as int,
                    COEF_LIMIT as int * 33554432 + 255 * (COEF_LIMIT as int * COS_ONE as int),
                );
            }
            let v = round_div(acc, COS_ONE);
            output[j] = v;
            proof {
                assert(dct_inv(c, tbl)[j as int] == rdiv(
                    c[0] * 33554432 + inv_sum(c, tbl, j as int, m as int),
                    COS_ONE as int,
                ));
            }
            j = j + 1;
        }
        proof {
            assert(ints(output@) =~= dct_inv(c, tbl));
        }
    }
}

} // verus!
