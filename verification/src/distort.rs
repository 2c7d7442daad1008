//! Coefficient distortion stage: spectral soft clip ("crunch") and
//! spectral quantizer ("crush").
//!
//! Both operators are pure functions of the coefficient vector and one
//! block-rate control value each, normalized to `[0, ONE]`.  A control of
//! exactly zero leaves the vector untouched.  For a positive crunch every
//! coefficient is clamped into `[-bound, bound]` and then scaled by a
//! compensation gain of at least one; the bound falls and the gain rises
//! monotonically with the control.  For a positive crush every coefficient
//! is rounded to the nearest multiple of a step that grows monotonically
//! with the control, reaching the coarsest step at full crush.

use vstd::prelude::*;

use crate::dct::COEF_LIMIT;
use crate::dct::COEF_RAW_LIMIT;
use crate::fixed::ONE;
use crate::fixed::clamp_i;
use crate::fixed::clamp_s;
use crate::fixed::floor_div_nn;
use crate::fixed::ints;
use crate::fixed::lemma_mul_mag;
use crate::fixed::lemma_rdiv_mag;
use crate::fixed::lemma_rdiv_nonneg;
use crate::fixed::lemma_rdiv_times_mag;
use crate::fixed::mulq;
use crate::fixed::mulq_s;
use crate::fixed::rdiv;
use crate::fixed::round_div;

verus! {

/// Clamp bound as crunch approaches zero (about 0.0505).
pub const BOUND_MAX: i64 = 52953;

/// Clamp bound at full crunch (about 0.0005).
pub const BOUND_MIN: i64 = 524;

/// Rise of the compensation gain over the control range: 9 * ONE,
/// so the gain runs from 1.0 to 10.0.
pub const GAIN_SLOPE: i64 = 9437184;

/// Finest quantizer step (about 1/272).
pub const STEP_MIN: i64 = 3855;

/// Coarsest quantizer step (1/16).
pub const STEP_MAX: i64 = 65536;

/// Magnitude cap on coefficients leaving the clamp-and-gain pass.
pub const CRUNCHED_LIMIT: i64 = 530000;

/// The squared crunch control: the curves respond quadratically.
pub open spec fn crunch_sq_s(c: int) -> int {
    mulq_s(c, c)
}

/// Clamp bound for a positive crunch control: falls linearly in the
/// squared control from `BOUND_MAX` to `BOUND_MIN`.
pub open spec fn crunch_bound_s(c: int) -> int {
    BOUND_MAX - (crunch_sq_s(c) * (BOUND_MAX - BOUND_MIN)) / (ONE as int)
}

/// Compensation gain for a positive crunch control: rises linearly in the
/// squared control from `ONE` to `ONE + GAIN_SLOPE`.
pub open spec fn crunch_gain_s(c: int) -> int {
    ONE + (crunch_sq_s(c) * (GAIN_SLOPE as int)) / (ONE as int)
}

/// Quantizer step for a positive crush control: rises linearly from
/// `STEP_MIN` to `STEP_MAX`.
pub open spec fn crush_step_s(c: int) -> int {
    STEP_MIN + (c * (STEP_MAX - STEP_MIN)) / (ONE as int)
}

/// The soft-clip pass over a coefficient vector: identity at zero crunch;
/// otherwise clamp into the crunch bound, then apply the compensation gain.
pub open spec fn crunch_seq(c: Seq<int>, cr: int) -> Seq<int> {
    if cr == 0 {
        c
    } else {
        Seq::new(
            c.len(),
            |i: int|
                mulq_s(
                    clamp_s(c[i], -crunch_bound_s(cr), crunch_bound_s(cr)),
                    crunch_gain_s(cr),
                ),
        )
    }
}

/// The quantizer pass over a coefficient vector: identity at zero crush;
/// otherwise round each coefficient to the nearest multiple of the step.
pub open spec fn crush_seq(c: Seq<int>, cu: int) -> Seq<int> {
    if cu == 0 {
        c
    } else {
        Seq::new(c.len(), |i: int| rdiv(c[i], crush_step_s(cu)) * crush_step_s(cu))
    }
}

/// The whole distortion stage: crunch first, then crush.
pub open spec fn distort_seq(c: Seq<int>, cr: int, cu: int) -> Seq<int> {
    crush_seq(crunch_seq(c, cr), cu)
}

/// Clamp bound for a crunch control.
pub fn crunch_bound(crunch: i64) -> (r: i64)
    requires
        0 <= crunch <= ONE,
    ensures
        r == crunch_bound_s(crunch as int),
        BOUND_MIN <= r <= BOUND_MAX,
{
    proof {
        lemma_mul_mag(crunch as int, crunch as int, ONE as int, ONE as int);
    }
    let c2 = mulq(crunch, crunch);
    proof {
        vstd::arithmetic::mul::lemma_mul_nonnegative(crunch as int, crunch as int);
        lemma_rdiv_nonneg(crunch as int * crunch as int, ONE as int);
        crate::fixed::lemma_mulq_unit_mag(crunch as int, crunch as int, ONE as int);
        lemma_mul_mag(c2 as int, (BOUND_MAX - BOUND_MIN) as int, ONE as int, (BOUND_MAX
            - BOUND_MIN) as int);
        vstd::arithmetic::mul::lemma_mul_nonnegative(c2 as int, (BOUND_MAX - BOUND_MIN) as int);
        vstd::arithmetic::div_mod::lemma_div_pos_is_pos(
            c2 as int * (BOUND_MAX - BOUND_MIN) as int,
            ONE as int,
        );
        vstd::arithmetic::div_mod::lemma_div_is_ordered(
            c2 as int * (BOUND_MAX - BOUND_MIN) as int,
            ONE as int * (BOUND_MAX - BOUND_MIN) as int,
            ONE as int,
        );
        vstd::arithmetic::div_mod::lemma_div_multiples_vanish(
            (BOUND_MAX - BOUND_MIN) as int,
            ONE as int,
        );
    }
    let scaled = floor_div_nn(c2 * (BOUND_MAX - BOUND_MIN), ONE);
    BOUND_MAX - scaled
}

/// Compensation gain for a crunch control.
pub fn crunch_gain(crunch: i64) -> (r: i64)
    requires
        0 <= crunch <= ONE,
    ensures
        r == crunch_gain_s(crunch as int),
        ONE <= r <= ONE + GAIN_SLOPE,
{
    proof {
        lemma_mul_mag(crunch as int, crunch as int, ONE as int, ONE as int);
    }
    let c2 = mulq(crunch, crunch);
    proof {
        vstd::arithmetic::mul::lemma_mul_nonnegative(crunch as int, crunch as int);
        lemma_rdiv_nonneg(crunch as int * crunch as int, ONE as int);
        crate::fixed::lemma_mulq_unit_mag(crunch as int, crunch as int, ONE as int);
        lemma_mul_mag(c2 as int, GAIN_SLOPE as int, ONE as int, GAIN_SLOPE as int);
        vstd::arithmetic::mul::lemma_mul_nonnegative(c2 as int, GAIN_SLOPE as int);
        vstd::arithmetic::div_mod::lemma_div_pos_is_pos(c2 as int * GAIN_SLOPE as int, ONE as int);
        vstd::arithmetic::div_mod::lemma_div_is_ordered(
            c2 as int * GAIN_SLOPE as int,
            ONE as int * GAIN_SLOPE as int,
            ONE as int,
        );
        vstd::arithmetic::div_mod::lemma_div_multiples_vanish(GAIN_SLOPE as int, ONE as int);
    }
    let scaled = floor_div_nn(c2 * GAIN_SLOPE, ONE);
    ONE + scaled
}

/// Quantizer step for a crush control.
pub fn crush_step(crush: i64) -> (r: i64)
    requires
        0 <= crush <= ONE,
    ensures
        r == crush_step_s(crush as int),
        STEP_MIN <= r <= STEP_MAX,
{
    proof {
        lemma_mul_mag(crush as int, (STEP_MAX - STEP_MIN) as int, ONE as int, (STEP_MAX
            - STEP_MIN) as int);
        vstd::arithmetic::mul::lemma_mul_nonnegative(crush as int, (STEP_MAX - STEP_MIN) as int);
        vstd::arithmetic::div_mod::lemma_div_pos_is_pos(
            crush as int * (STEP_MAX - STEP_MIN) as int,
            ONE as int,
        );
        vstd::arithmetic::div_mod::lemma_div_is_ordered(
            crush as int * (STEP_MAX - STEP_MIN) as int,
            ONE as int * (STEP_MAX - STEP_MIN) as int,
            ONE as int,
        );
        vstd::arithmetic::div_mod::lemma_div_multiples_vanish(
            (STEP_MAX - STEP_MIN) as int,
            ONE as int,
        );
    }
    let scaled = floor_div_nn(crush * (STEP_MAX - STEP_MIN), ONE);
    STEP_MIN + scaled
}

/// Apply the distortion stage to a coefficient vector in place.
pub fn apply_distortion(buf: &mut Vec<i64>, crunch: i64, crush: i64)
    requires
        0 <= crunch <= ONE,
        0 <= crush <= ONE,
        forall|i: int|
            0 <= i < old(buf)@.len() ==> -COEF_RAW_LIMIT <= #[trigger] old(buf)@[i]
                <= COEF_RAW_LIMIT,
    ensures
        final(buf)@.len() == old(buf)@.len(),
        ints(final(buf)@) == distort_seq(ints(old(buf)@), crunch as int, crush as int),
        forall|i: int|
            0 <= i < final(buf)@.len() ==> -COEF_LIMIT <= #[trigger] final(buf)@[i] <= COEF_LIMIT,
{
    let ghost c0 = ints(old(buf)@);
    let len = buf.len();
    if crunch != 0 {
        let b = crunch_bound(crunch);
        let g = crunch_gain(crunch);
        let mut i: usize = 0;
        while i < len
            invariant
                0 < crunch <= ONE,
                len == buf@.len(),
                c0 == ints(old(buf)@),
                c0.len() == len,
                b == crunch_bound_s(crunch as int),
                BOUND_MIN <= b <= BOUND_MAX,
                g == crunch_gain_s(crunch as int),
                ONE <= g <= ONE + GAIN_SLOPE,
                i <= len,
                forall|j: int| 0 <= j < i ==> buf@[j] == crunch_seq(c0, crunch as int)[j],
                forall|j: int|
                    0 <= j < i ==> -CRUNCHED_LIMIT <= #[trigger] buf@[j] <= CRUNCHED_LIMIT,
                forall|j: int| i <= j < len ==> buf@[j] == old(buf)@[j],
                forall|j: int|
                    i <= j < len ==> -COEF_RAW_LIMIT <= #[trigger] buf@[j] <= COEF_RAW_LIMIT,
            decreases len - i,
        {
            let v = clamp_i(buf[i], -b, b);
            proof {
                lemma_mul_mag(v as int, g as int, BOUND_MAX as int, (ONE + GAIN_SLOPE) as int);
                lemma_rdiv_mag(
                    v as int * g as int,
                    ONE as int,
                    BOUND_MAX as int * (ONE + GAIN_SLOPE) as int,
                );
            }
            let w = mulq(v, g);
            buf[i] = w;
            i = i + 1;
        }
        proof {
            assert(ints(buf@) =~= crunch_seq(c0, crunch as int));
        }
    }
    let ghost c1 = crunch_seq(c0, crunch as int);
    let ghost mid = ints(buf@);
    if crush != 0 {
        let s = crush_step(crush);
        let mut i: usize = 0;
        while i < len
            invariant
                0 < crush <= ONE,
                len == buf@.len(),
                mid.len() == len,
                s == crush_step_s(crush as int),
                STEP_MIN <= s <= STEP_MAX,
                i <= len,
                forall|j: int| 0 <= j < i ==> buf@[j] == crush_seq(mid, crush as int)[j],
                forall|j: int| 0 <= j < i ==> -COEF_LIMIT <= #[trigger] buf@[j] <= COEF_LIMIT,
                forall|j: int| i <= j < len ==> buf@[j] == mid[j],
                forall|j: int|
                    i <= j < len ==> -COEF_RAW_LIMIT <= #[trigger] buf@[j] <= COEF_RAW_LIMIT,
            decreases len - i,
        {
            let v = buf[i];
            proof {
                lemma_rdiv_mag(v as int, s as int, COEF_RAW_LIMIT as int);
                lemma_rdiv_times_mag(v as int, s as int, COEF_RAW_LIMIT as int);
            }
            let q = round_div(v, s);
            buf[i] = q * s;
            i = i + 1;
        }
        proof {
            assert(ints(buf@) =~= crush_seq(mid, crush as int));
        }
    }
    proof {
        assert(mid == c1);
        assert(ints(buf@) =~= distort_seq(c0, crunch as int, crush as int));
        assert(forall|i: int|
            0 <= i < buf@.len() ==> -COEF_LIMIT <= #[trigger] buf@[i] <= COEF_LIMIT);
    }
}

} // verus!
