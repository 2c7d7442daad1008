//! Engine-wide laws, stated and proved over the specification model.

use vstd::prelude::*;

use crate::channel::ChanModel;
use crate::channel::FrameModel;
use crate::channel::chan_step_next_s;
use crate::channel::chan_step_out_s;
use crate::channel::chan_tail2_s;
use crate::channel::chan_wet_s;
use crate::channel::chan_y_s;
use crate::channel::driven_s;
use crate::channel::mix_gain_s;
use crate::channel::zero_model;
use crate::dct::cos_at;
use crate::dct::dct_fwd;
use crate::dct::dct_inv;
use crate::dct::fwd_sum;
use crate::dct::inv_sum;
use crate::distort::BOUND_MAX;
use crate::distort::BOUND_MIN;
use crate::distort::GAIN_SLOPE;
use crate::distort::STEP_MAX;
use crate::distort::STEP_MIN;
use crate::distort::crunch_bound_s;
use crate::distort::crunch_gain_s;
use crate::distort::crunch_seq;
use crate::distort::crunch_sq_s;
use crate::distort::crush_seq;
use crate::distort::crush_step_s;
use crate::distort::distort_seq;
use crate::fixed::ONE;
use crate::fixed::clamp_s;
use crate::fixed::lemma_mul_mag;
use crate::fixed::lemma_rdiv_nonneg;
use crate::fixed::lemma_rdiv_zero;
use crate::fixed::mulq_s;
use crate::fixed::rdiv;
use crate::fixed::zeros;

verus! {

/// A control of exactly zero leaves the distortion stage an identity:
/// with both controls at zero every coefficient is unchanged, and the
/// crunch compensation gain is exactly one.
pub proof fn law_identity_at_zero(c: Seq<int>)
    ensures
        crunch_seq(c, 0) == c,
        crush_seq(c, 0) == c,
        distort_seq(c, 0, 0) == c,
        crunch_gain_s(0) == ONE,
{
    lemma_rdiv_zero(ONE as int);
    assert(crunch_sq_s(0) == 0) by {
        assert(0 * 0 == 0) by (nonlinear_arith);
    }
    assert(crunch_sq_s(0) * (GAIN_SLOPE as int) == 0) by (nonlinear_arith)
        requires
            crunch_sq_s(0) == 0,
    ;
    vstd::arithmetic::div_mod::lemma_div_of0(ONE as int);
}

/// The quantizer step curve: the step lies between the finest and the
/// coarsest step for every control in range, and reaches exactly the
/// coarsest step at full crush.
pub proof fn law_crush_step_range(cu: int)
    requires
        0 <= cu <= ONE,
    ensures
        STEP_MIN <= crush_step_s(cu) <= STEP_MAX,
        cu == ONE ==> crush_step_s(cu) == STEP_MAX,
{
    let d = (STEP_MAX - STEP_MIN) as int;
    lemma_mul_mag(cu, d, ONE as int, d);
    vstd::arithmetic::mul::lemma_mul_nonnegative(cu, d);
    vstd::arithmetic::div_mod::lemma_div_pos_is_pos(cu * d, ONE as int);
    vstd::arithmetic::div_mod::lemma_div_is_ordered(cu * d, ONE as int * d, ONE as int);
    vstd::arithmetic::div_mod::lemma_div_multiples_vanish(d, ONE as int);
}

/// The clamp bound curve: the bound lies between its extremes for every
/// control in range, so the clamp interval is never empty.
pub proof fn law_crunch_bound_range(cr: int)
    requires
        0 <= cr <= ONE,
    ensures
        BOUND_MIN <= crunch_bound_s(cr) <= BOUND_MAX,
{
    let d = (BOUND_MAX - BOUND_MIN) as int;
    vstd::arithmetic::mul::lemma_mul_nonnegative(cr, cr);
    lemma_rdiv_nonneg(cr * cr, ONE as int);
    crate::fixed::lemma_mulq_unit_mag(cr, cr, ONE as int);
    lemma_mul_mag(crunch_sq_s(cr), d, ONE as int, d);
    vstd::arithmetic::mul::lemma_mul_nonnegative(crunch_sq_s(cr), d);
    vstd::arithmetic::div_mod::lemma_div_pos_is_pos(crunch_sq_s(cr) * d, ONE as int);
    vstd::arithmetic::div_mod::lemma_div_is_ordered(crunch_sq_s(cr) * d, ONE as int * d, ONE as int);
    vstd::arithmetic::div_mod::lemma_div_multiples_vanish(d, ONE as int);
}

/// The compensation gain curve: the gain is at least one and at most ten
/// for every control in range.
pub proof fn law_crunch_gain_range(cr: int)
    requires
        0 <= cr <= ONE,
    ensures
        ONE <= crunch_gain_s(cr) <= ONE + GAIN_SLOPE,
{
    vstd::arithmetic::mul::lemma_mul_nonnegative(cr, cr);
    lemma_rdiv_nonneg(cr * cr, ONE as int);
    crate::fixed::lemma_mulq_unit_mag(cr, cr, ONE as int);
    lemma_mul_mag(crunch_sq_s(cr), GAIN_SLOPE as int, ONE as int, GAIN_SLOPE as int);
    vstd::arithmetic::mul::lemma_mul_nonnegative(crunch_sq_s(cr), GAIN_SLOPE as int);
    vstd::arithmetic::div_mod::lemma_div_pos_is_pos(crunch_sq_s(cr) * GAIN_SLOPE as int, ONE as int);
    vstd::arithmetic::div_mod::lemma_div_is_ordered(
        crunch_sq_s(cr) * GAIN_SLOPE as int,
        ONE as int * GAIN_SLOPE as int,
        ONE as int,
    );
    vstd::arithmetic::div_mod::lemma_div_multiples_vanish(GAIN_SLOPE as int, ONE as int);
}

/// For a positive crush control every coefficient leaving the distortion
/// stage is its post-crunch value rounded to the nearest multiple of the
/// step derived from that control: nothing falls between grid levels.
pub proof fn law_crush_quantization(c: Seq<int>, cr: int, cu: int, i: int)
    requires
        0 < cu,
        0 <= i < c.len(),
    ensures
        distort_seq(c, cr, cu)[i] == rdiv(crunch_seq(c, cr)[i], crush_step_s(cu)) * crush_step_s(
            cu,
        ),
{
    assert(crunch_seq(c, cr).len() == c.len());
}

/// For a positive crunch control every coefficient is clamped into the
/// bound derived from that control before the compensation gain applies.
pub proof fn law_crunch_clamp(c: Seq<int>, cr: int, i: int)
    requires
        0 < cr <= ONE,
        0 <= i < c.len(),
    ensures
        -crunch_bound_s(cr) <= clamp_s(c[i], -crunch_bound_s(cr), crunch_bound_s(cr))
            <= crunch_bound_s(cr),
        crunch_seq(c, cr)[i] == mulq_s(
            clamp_s(c[i], -crunch_bound_s(cr), crunch_bound_s(cr)),
            crunch_gain_s(cr),
        ),
{
    law_crunch_bound_range(cr);
}

/// At full crush the quantizer grid is the coarsest configured one, and
/// every coefficient collapses onto a multiple of that coarsest step.
pub proof fn law_full_crush_grid(c: Seq<int>, cr: int, i: int)
    requires
        0 <= i < c.len(),
    ensures
        crush_step_s(ONE as int) == STEP_MAX,
        distort_seq(c, cr, ONE as int)[i] == rdiv(crunch_seq(c, cr)[i], STEP_MAX as int) * (
        STEP_MAX as int),
{
    law_crush_step_range(ONE as int);
    vstd::arithmetic::div_mod::lemma_div_multiples_vanish(
        (STEP_MAX - STEP_MIN) as int,
        ONE as int,
    );
    law_crush_quantization(c, cr, ONE as int, i);
}

/// The engine is a pure function of its state and inputs: equal states
/// fed equal samples under equal controls give bit-equal outputs and
/// bit-equal next states, across any number of blocks.
pub proof fn law_determinism(
    a: ChanModel,
    b: ChanModel,
    comb: Seq<int>,
    fs: Seq<FrameModel>,
    nb: int,
    n: int,
)
    requires
        a == b,
    ensures
        crate::framer::run_state(a, comb, fs, nb, n) == crate::framer::run_state(b, comb, fs, nb, n),
        crate::framer::outs_concat(a, comb, fs, nb, n) == crate::framer::outs_concat(
            b,
            comb,
            fs,
            nb,
            n,
        ),
{
}

/// A partial forward sum over an all-zero block is zero.
proof fn lemma_fwd_sum_zero(tbl: Seq<int>, k: int, j: int, len: int)
    requires
        0 <= j <= len,
    ensures
        fwd_sum(zeros(len), tbl, k, j) == 0,
    decreases j,
{
    if j > 0 {
        lemma_fwd_sum_zero(tbl, k, j - 1, len);
        assert(zeros(len)[j - 1] == 0);
        assert(0 * cos_at(tbl, 2 * (j - 1) + 1, k) == 0) by (nonlinear_arith);
    }
}

/// A partial inverse sum over an all-zero coefficient vector is zero.
proof fn lemma_inv_sum_zero(c: Seq<int>, tbl: Seq<int>, j: int, k: int)
    requires
        1 <= k,
        forall|i: int| 0 <= i < c.len() ==> #[trigger] c[i] == 0,
        k <= c.len(),
    ensures
        inv_sum(c, tbl, j, k) == 0,
    decreases k,
{
    if k > 1 {
        lemma_inv_sum_zero(c, tbl, j, k - 1);
        assert(0 * cos_at(tbl, 2 * j + 1, k - 1) == 0) by (nonlinear_arith);
    }
}

/// The forward transform of silence is silence.
proof fn lemma_dct_fwd_zero(tbl: Seq<int>, m: int)
    requires
        1 <= m,
    ensures
        dct_fwd(zeros(m), tbl) == zeros(m),
    decreases m,
{
    assert forall|k: int| 0 <= k < m implies dct_fwd(zeros(m), tbl)[k] == 0 by {
        lemma_fwd_sum_zero(tbl, k, m, m);
        vstd::arithmetic::mul::lemma_mul_strictly_positive(m, 33554432);
        lemma_rdiv_zero(m * 33554432);
    }
    assert(dct_fwd(zeros(m), tbl) =~= zeros(m));
}

/// The inverse transform of silence is silence.
proof fn lemma_dct_inv_zero(c: Seq<int>, tbl: Seq<int>)
    requires
        1 <= c.len(),
        forall|i: int| 0 <= i < c.len() ==> #[trigger] c[i] == 0,
    ensures
        dct_inv(c, tbl) == zeros(c.len() as int),
{
    assert forall|j: int| 0 <= j < c.len() implies dct_inv(c, tbl)[j] == 0 by {
        lemma_inv_sum_zero(c, tbl, j, c.len() as int);
        assert(c[0] * 33554432 == 0) by (nonlinear_arith)
            requires
                c[0] == 0,
        ;
        lemma_rdiv_zero(crate::fixed::COS_ONE as int);
    }
    assert(dct_inv(c, tbl) =~= zeros(c.len() as int));
}

/// The distortion stage maps silence to silence for every pair of controls
/// in range.
proof fn lemma_distort_zero(c: Seq<int>, cr: int, cu: int)
    requires
        0 <= cr <= ONE,
        0 <= cu <= ONE,
        forall|i: int| 0 <= i < c.len() ==> #[trigger] c[i] == 0,
    ensures
        distort_seq(c, cr, cu).len() == c.len(),
        forall|i: int| 0 <= i < c.len() ==> #[trigger] distort_seq(c, cr, cu)[i] == 0,
{
    law_crunch_bound_range(cr);
    law_crunch_gain_range(cr);
    law_crush_step_range(cu);
    let c1 = crunch_seq(c, cr);
    assert forall|i: int| 0 <= i < c.len() implies #[trigger] c1[i] == 0 by {
        if cr != 0 {
            assert(clamp_s(0, -crunch_bound_s(cr), crunch_bound_s(cr)) == 0);
            assert(0 * crunch_gain_s(cr) == 0) by (nonlinear_arith);
            lemma_rdiv_zero(ONE as int);
        }
    }
    assert forall|i: int| 0 <= i < c.len() implies #[trigger] crush_seq(c1, cu)[i] == 0 by {
        if cu != 0 {
            lemma_rdiv_zero(crush_step_s(cu));
            assert(0 * crush_step_s(cu) == 0) by (nonlinear_arith);
        }
    }
}

/// Silence in, silence out: a silent engine fed a silent block produces a
/// silent block and stays silent, whatever the controls — so an all-zero
/// input stream of any length yields an all-zero output stream.
pub proof fn law_zero_input(f: FrameModel, n: int)
    requires
        1 <= n,
        f.drive.len() == n,
        f.mix.len() == n,
        f.gain.len() == n,
        0 <= f.crunch <= ONE,
        0 <= f.crush <= ONE,
    ensures
        chan_step_out_s(zero_model(n), zeros(n), f, n) == zeros(n),
        chan_step_next_s(zero_model(n), zeros(n), f, n) == zero_model(n),
{
    let z = zeros(n);
    let tbl = crate::trig::cos_table_s(2 * n);
    let w = crate::mdct::window_s(n);
    assert(driven_s(z, f.drive) =~= zeros(n)) by {
        assert forall|i: int| 0 <= i < n implies driven_s(z, f.drive)[i] == 0 by {
            assert(0 * f.drive[i] == 0) by (nonlinear_arith);
            lemma_rdiv_zero(ONE as int);
        }
    }
    assert(zeros(n) + zeros(n) =~= zeros(2 * n));
    lemma_dct_fwd_zero(tbl, 2 * n);
    let coeffs = dct_fwd(zeros(2 * n), tbl);
    lemma_distort_zero(coeffs, f.crunch, f.crush);
    let dist = distort_seq(coeffs, f.crunch, f.crush);
    lemma_dct_inv_zero(dist, tbl);
    let y = dct_inv(dist, tbl);
    assert(y == zeros(2 * n));
    assert(chan_y_s(zeros(n), z, f.drive, f.crunch, f.crush, n) == y);
    assert(chan_wet_s(zeros(n), zeros(n), z, f.drive, f.crunch, f.crush, n) =~= zeros(n)) by {
        assert forall|i: int|
            0 <= i < n implies crate::mdct::imdct_out_s(y, w, zeros(n), n)[i] == 0 by {
            assert(0 * w[i] == 0) by (nonlinear_arith);
            lemma_rdiv_zero(ONE as int);
        }
    }
    assert(chan_tail2_s(zeros(n), z, f.drive, f.crunch, f.crush, n) =~= zeros(n)) by {
        assert forall|i: int|
            0 <= i < n implies crate::mdct::imdct_tail_s(y, w, n)[i] == 0 by {
            assert(0 * w[n + i] == 0) by (nonlinear_arith);
            lemma_rdiv_zero(ONE as int);
        }
    }
    assert(chan_step_out_s(zero_model(n), z, f, n) =~= zeros(n)) by {
        let wet = chan_wet_s(zeros(n), zeros(n), z, f.drive, f.crunch, f.crush, n);
        assert forall|i: int|
            0 <= i < n implies mix_gain_s(wet, zeros(n), f.mix, f.gain, n)[i] == 0 by {
            assert(wet[i] == 0);
            assert(0 * f.mix[i] == 0) by (nonlinear_arith);
            assert(0 * (ONE - f.mix[i]) == 0) by (nonlinear_arith);
            lemma_rdiv_zero(ONE as int);
            assert(0 * f.gain[i] == 0) by (nonlinear_arith);
        }
    }
}

/// The first `nb` blocks of a run depend only on the first `nb * n`
/// combined samples and the first `nb` frames.
proof fn lemma_run_prefix(
    s0: ChanModel,
    ca: Seq<int>,
    cb: Seq<int>,
    fs1: Seq<FrameModel>,
    fs2: Seq<FrameModel>,
    nb: int,
    n: int,
)
    requires
        1 <= n,
        0 <= nb,
        nb * n <= ca.len(),
        nb * n <= cb.len(),
        ca.take(nb * n) == cb.take(nb * n),
        forall|j: int| 0 <= j < nb ==> fs1[j] == fs2[j],
    ensures
        crate::framer::run_state(s0, ca, fs1, nb, n) == crate::framer::run_state(s0, cb, fs2, nb, n),
        crate::framer::outs_concat(s0, ca, fs1, nb, n) == crate::framer::outs_concat(
            s0,
            cb,
            fs2,
            nb,
            n,
        ),
    decreases nb,
{
    if nb > 0 {
        assert((nb - 1) * n == nb * n - n) by (nonlinear_arith);
        vstd::arithmetic::mul::lemma_mul_nonnegative(nb - 1, n);
        assert((nb - 1) * n <= ca.len() && (nb - 1) * n <= cb.len());
        assert(forall|t: int|
            0 <= t < nb * n ==> #[trigger] ca.take(nb * n)[t] == cb.take(nb * n)[t]);
        assert(ca.take((nb - 1) * n) =~= cb.take((nb - 1) * n));
        lemma_run_prefix(s0, ca, cb, fs1, fs2, nb - 1, n);
        assert forall|t: int|
            0 <= t < n implies #[trigger] ca.subrange((nb - 1) * n, nb * n)[t] == cb.subrange(
            (nb - 1) * n,
            nb * n,
        )[t] by {
            assert(ca.subrange((nb - 1) * n, nb * n)[t] == ca[(nb - 1) * n + t]);
            assert(cb.subrange((nb - 1) * n, nb * n)[t] == cb[(nb - 1) * n + t]);
            assert(ca.take(nb * n)[(nb - 1) * n + t] == ca[(nb - 1) * n + t]);
            assert(cb.take(nb * n)[(nb - 1) * n + t] == cb[(nb - 1) * n + t]);
            assert(ca.take(nb * n)[(nb - 1) * n + t] == cb.take(nb * n)[(nb - 1) * n + t]);
        }
        assert(ca.subrange((nb - 1) * n, nb * n) =~= cb.subrange((nb - 1) * n, nb * n));
        assert(crate::framer::block_out(s0, ca, fs1, nb - 1, n) == crate::framer::block_out(
            s0,
            cb,
            fs2,
            nb - 1,
            n,
        ));
    }
}

/// Running `nb1 + k` blocks equals running `nb1` blocks and then running
/// `k` more from the reached state over the stream's remainder, and the
/// concatenated outputs split the same way.
#[verifier::rlimit(100)]
#[verifier::spinoff_prover]
proof fn lemma_run_split(
    s0: ChanModel,
    comb: Seq<int>,
    fs: Seq<FrameModel>,
    nb1: int,
    k: int,
    n: int,
)
    requires
        1 <= n,
        0 <= nb1,
        0 <= k,
        (nb1 + k) * n <= comb.len(),
        nb1 + k <= fs.len(),
    ensures
        crate::framer::run_state(s0, comb, fs, nb1 + k, n) == crate::framer::run_state(
            crate::framer::run_state(s0, comb, fs, nb1, n),
            comb.skip(nb1 * n),
            fs.skip(nb1),
            k,
            n,
        ),
        crate::framer::outs_concat(s0, comb, fs, nb1 + k, n) == crate::framer::outs_concat(
            s0,
            comb,
            fs,
            nb1,
            n,
        ) + crate::framer::outs_concat(
            crate::framer::run_state(s0, comb, fs, nb1, n),
            comb.skip(nb1 * n),
            fs.skip(nb1),
            k,
            n,
        ),
    decreases k,
{
    let st1 = crate::framer::run_state(s0, comb, fs, nb1, n);
    let rest = comb.skip(nb1 * n);
    let fr = fs.skip(nb1);
    assert(0 <= nb1 * n) by (nonlinear_arith)
        requires
            0 <= nb1,
            0 <= n,
    ;
    if k == 0 {
        assert(crate::framer::outs_concat(s0, comb, fs, nb1, n) + crate::framer::outs_concat(
            st1,
            rest,
            fr,
            0,
            n,
        ) =~= crate::framer::outs_concat(s0, comb, fs, nb1, n));
    } else {
        assert((nb1 + k - 1) * n == (nb1 + k) * n - n) by (nonlinear_arith);
        lemma_run_split(s0, comb, fs, nb1, k - 1, n);
        assert((nb1 + k - 1) * n == nb1 * n + (k - 1) * n) by (nonlinear_arith);
        assert((nb1 + k) * n == nb1 * n + k * n) by (nonlinear_arith);
        assert((k - 1) * n == k * n - n) by (nonlinear_arith);
        vstd::arithmetic::mul::lemma_mul_nonnegative(k - 1, n);
        assert forall|t: int|
            0 <= t < n implies #[trigger] comb.skip(nb1 * n).subrange((k - 1) * n, k * n)[t]
                == comb.subrange((nb1 + k - 1) * n, (nb1 + k) * n)[t] by {
            assert(comb.skip(nb1 * n)[(k - 1) * n + t] == comb[nb1 * n + ((k - 1) * n + t)]);
        }
        assert(rest.subrange((k - 1) * n, k * n) =~= comb.subrange(
            (nb1 + k - 1) * n,
            (nb1 + k) * n,
        ));
        assert(fs.skip(nb1)[k - 1] == fs[nb1 + k - 1]);
        assert(fr[k - 1] == fs[nb1 + k - 1]);
        assert(crate::framer::run_state(s0, comb, fs, nb1 + k, n)
            == crate::framer::run_state(st1, rest, fr, k, n));
        assert(crate::framer::block_out(s0, comb, fs, nb1 + k - 1, n)
            == crate::framer::block_out(st1, rest, fr, k - 1, n));
        assert(crate::framer::outs_concat(s0, comb, fs, nb1 + k, n)
            =~= crate::framer::outs_concat(s0, comb, fs, nb1, n) + crate::framer::outs_concat(
            st1,
            rest,
            fr,
            k,
            n,
        ));
    }
}

/// Conservation under re-framing: feeding new samples in two calls
/// produces, once the two outputs are concatenated, exactly the output of
/// feeding them in one call, and leaves the engine in the same state with
/// the same carry.  The framer's chunking of the input is unobservable.
#[verifier::rlimit(100)]
#[verifier::spinoff_prover]
pub proof fn law_reframing(
    s0: ChanModel,
    stash0: Seq<int>,
    pending: int,
    row1: Seq<int>,
    row2: Seq<int>,
    fs: Seq<FrameModel>,
    n: int,
)
    requires
        1 <= n,
        0 <= pending < n,
        stash0.len() == n,
        (pending + row1.len() + row2.len()) / n <= fs.len(),
    ensures
        ({
            let s1 = row1.len() as int;
            let s2 = row2.len() as int;
            let comb1 = stash0.take(pending) + row1;
            let nb1 = (pending + s1) / n;
            let e1 = crate::framer::emitted_s(s0, stash0, pending, comb1, fs, nb1, n);
            let st1 = crate::framer::run_state(s0, comb1, fs, nb1, n);
            let stash1 = comb1.subrange(nb1 * n, pending + s1) + e1.skip(s1);
            let p1 = (pending + s1) % n;
            let comb2 = stash1.take(p1) + row2;
            let nb2 = (p1 + s2) / n;
            let e2 = crate::framer::emitted_s(st1, stash1, p1, comb2, fs.skip(nb1), nb2, n);
            let comb12 = stash0.take(pending) + (row1 + row2);
            let nb12 = (pending + s1 + s2) / n;
            let e12 = crate::framer::emitted_s(s0, stash0, pending, comb12, fs, nb12, n);
            &&& nb12 == nb1 + nb2
            &&& (p1 + s2) % n == (pending + s1 + s2) % n
            &&& crate::framer::run_state(st1, comb2, fs.skip(nb1), nb2, n)
                == crate::framer::run_state(s0, comb12, fs, nb12, n)
            &&& e1.take(s1) + e2.take(s2) == e12.take(s1 + s2)
            &&& comb2.subrange(nb2 * n, comb2.len() as int) + e2.skip(s2) == comb12.subrange(
                nb12 * n,
                comb12.len() as int,
            ) + e12.skip(s1 + s2)
        }),
{
    let s1 = row1.len() as int;
    let s2 = row2.len() as int;
    let comb1 = stash0.take(pending) + row1;
    let nb1 = (pending + s1) / n;
    let e1 = crate::framer::emitted_s(s0, stash0, pending, comb1, fs, nb1, n);
    let st1 = crate::framer::run_state(s0, comb1, fs, nb1, n);
    let stash1 = comb1.subrange(nb1 * n, pending + s1) + e1.skip(s1);
    let p1 = (pending + s1) % n;
    let comb2 = stash1.take(p1) + row2;
    let nb2 = (p1 + s2) / n;
    let e2 = crate::framer::emitted_s(st1, stash1, p1, comb2, fs.skip(nb1), nb2, n);
    let comb12 = stash0.take(pending) + (row1 + row2);
    let nb12 = (pending + s1 + s2) / n;
    let e12 = crate::framer::emitted_s(s0, stash0, pending, comb12, fs, nb12, n);
    let tail0 = stash0.subrange(pending, n);
    let outs1 = crate::framer::outs_concat(s0, comb1, fs, nb1, n);
    let outs2 = crate::framer::outs_concat(st1, comb2, fs.skip(nb1), nb2, n);

    // Arithmetic: block counts and remainders compose.
    vstd::arithmetic::div_mod::lemma_fundamental_div_mod(pending + s1, n);
    vstd::arithmetic::div_mod::lemma_mod_division_less_than_divisor(pending + s1, n);
    vstd::arithmetic::div_mod::lemma_div_pos_is_pos(pending + s1, n);
    assert(pending + s1 == n * nb1 + p1);
    vstd::arithmetic::div_mod::lemma_fundamental_div_mod(p1 + s2, n);
    vstd::arithmetic::div_mod::lemma_mod_division_less_than_divisor(p1 + s2, n);
    vstd::arithmetic::div_mod::lemma_div_pos_is_pos(p1 + s2, n);
    let p12 = (p1 + s2) % n;
    assert(p1 + s2 == n * nb2 + p12);
    assert(pending + s1 + s2 == n * (nb1 + nb2) + p12) by (nonlinear_arith)
        requires
            pending + s1 == n * nb1 + p1,
            p1 + s2 == n * nb2 + p12,
    ;
    vstd::arithmetic::div_mod::lemma_fundamental_div_mod_converse(
        pending + s1 + s2,
        n,
        nb1 + nb2,
        p12,
    );
    assert(nb12 == nb1 + nb2);
    assert((pending + s1 + s2) % n == p12);
    assert(nb1 * n == n * nb1) by (nonlinear_arith);
    assert(nb2 * n == n * nb2) by (nonlinear_arith);
    assert(nb12 * n == nb1 * n + nb2 * n) by (nonlinear_arith)
        requires
            nb12 == nb1 + nb2,
    ;
    crate::framer::lemma_outs_len(s0, comb1, fs, nb1, n);
    crate::framer::lemma_outs_len(st1, comb2, fs.skip(nb1), nb2, n);
    crate::framer::lemma_outs_len(s0, comb12, fs, nb12, n);

    // The one-call stream's remainder after call 1's blocks is exactly
    // what call 2 sees.
    assert(comb12 =~= comb1 + row2);
    assert(stash1.len() == n);
    assert(stash1.take(p1) =~= comb1.subrange(nb1 * n, pending + s1));
    assert(comb2 =~= comb12.skip(nb1 * n));

    // Call 1 over its own stream equals the one-call run's first blocks.
    assert(comb1.take(nb1 * n) =~= comb12.take(nb1 * n));
    lemma_run_prefix(s0, comb1, comb12, fs, fs, nb1, n);
    let st1b = crate::framer::run_state(s0, comb12, fs, nb1, n);
    assert(st1 == st1b);
    assert(outs1 == crate::framer::outs_concat(s0, comb12, fs, nb1, n));

    // The one-call run splits at the boundary.
    lemma_run_split(s0, comb12, fs, nb1, nb2, n);
    assert(crate::framer::run_state(st1, comb2, fs.skip(nb1), nb2, n) == crate::framer::run_state(
        s0,
        comb12,
        fs,
        nb12,
        n,
    ));
    assert(crate::framer::outs_concat(s0, comb12, fs, nb12, n) == outs1 + outs2);

    // The emitted streams chain: call 2's stream is call 1's leftover.
    assert(e1.len() == (n - pending) + nb1 * n);
    assert(e2.len() == (n - p1) + nb2 * n);
    assert(e12.len() == (n - pending) + nb12 * n);
    assert(s1 <= e1.len());
    assert(s2 <= e2.len());
    assert(stash1.subrange(p1, n) =~= e1.skip(s1));
    assert(e2 =~= e1.skip(s1) + outs2);
    assert(e12 =~= e1 + outs2);
    assert(e1.take(s1) + e2.take(s2) =~= e12.take(s1 + s2));
    assert(comb2.subrange(nb2 * n, comb2.len() as int) =~= comb12.subrange(
        nb12 * n,
        comb12.len() as int,
    ));
    assert(e2.skip(s2) =~= e12.skip(s1 + s2));
}

/// Rounded division by a positive divisor is monotone on nonnegative
/// arguments.
proof fn lemma_rdiv_monotone_nonneg(a1: int, a2: int, d: int)
    requires
        d >= 1,
        0 <= a1 <= a2,
    ensures
        rdiv(a1, d) <= rdiv(a2, d),
{
    vstd::arithmetic::div_mod::lemma_div_is_ordered(a1 + d / 2, a2 + d / 2, d);
}

/// The voicing curves are monotone in their controls, as the effect's
/// design demands: a larger crunch clamps harder and compensates more, a
/// larger crush quantizes more coarsely.
pub proof fn law_curves_monotone(c1: int, c2: int)
    requires
        0 <= c1 <= c2 <= ONE,
    ensures
        crush_step_s(c1) <= crush_step_s(c2),
        crunch_bound_s(c1) >= crunch_bound_s(c2),
        crunch_gain_s(c1) <= crunch_gain_s(c2),
{
    let sd = (STEP_MAX - STEP_MIN) as int;
    vstd::arithmetic::mul::lemma_mul_inequality(c1, c2, sd);
    vstd::arithmetic::mul::lemma_mul_nonnegative(c1, sd);
    vstd::arithmetic::div_mod::lemma_div_is_ordered(c1 * sd, c2 * sd, ONE as int);
    assert(c1 * c1 <= c2 * c2) by (nonlinear_arith)
        requires
            0 <= c1 <= c2,
    ;
    vstd::arithmetic::mul::lemma_mul_nonnegative(c1, c1);
    lemma_rdiv_monotone_nonneg(c1 * c1, c2 * c2, ONE as int);
    lemma_rdiv_nonneg(c1 * c1, ONE as int);
    let bd = (BOUND_MAX - BOUND_MIN) as int;
    vstd::arithmetic::mul::lemma_mul_inequality(crunch_sq_s(c1), crunch_sq_s(c2), bd);
    vstd::arithmetic::mul::lemma_mul_nonnegative(crunch_sq_s(c1), bd);
    vstd::arithmetic::div_mod::lemma_div_is_ordered(
        crunch_sq_s(c1) * bd,
        crunch_sq_s(c2) * bd,
        ONE as int,
    );
    vstd::arithmetic::mul::lemma_mul_inequality(
        crunch_sq_s(c1),
        crunch_sq_s(c2),
        GAIN_SLOPE as int,
    );
    vstd::arithmetic::mul::lemma_mul_nonnegative(crunch_sq_s(c1), GAIN_SLOPE as int);
    vstd::arithmetic::div_mod::lemma_div_is_ordered(
        crunch_sq_s(c1) * GAIN_SLOPE as int,
        crunch_sq_s(c2) * GAIN_SLOPE as int,
        ONE as int,
    );
}

/// Silence in, silence out over a whole stream: from a silent state, a
/// silent combined input stream leaves the engine silent after every block
/// and makes every emitted sample zero, whatever the controls.
pub proof fn law_zero_stream(comb: Seq<int>, fs: Seq<FrameModel>, nb: int, n: int)
    requires
        1 <= n,
        0 <= nb,
        nb * n <= comb.len(),
        forall|t: int| 0 <= t < nb * n ==> #[trigger] comb[t] == 0,
        forall|j: int|
            0 <= j < nb ==> {
                &&& (#[trigger] fs[j]).drive.len() == n
                &&& fs[j].mix.len() == n
                &&& fs[j].gain.len() == n
                &&& 0 <= fs[j].crunch <= ONE
                &&& 0 <= fs[j].crush <= ONE
            },
    ensures
        crate::framer::run_state(zero_model(n), comb, fs, nb, n) == zero_model(n),
        crate::framer::outs_concat(zero_model(n), comb, fs, nb, n) == zeros(nb * n),
    decreases nb,
{
    crate::framer::lemma_outs_len(zero_model(n), comb, fs, nb, n);
    if nb == 0 {
        assert(nb * n == 0) by (nonlinear_arith)
            requires
                nb == 0,
        ;
        assert(crate::framer::outs_concat(zero_model(n), comb, fs, 0, n) =~= zeros(0));
    } else {
        assert((nb - 1) * n == nb * n - n) by (nonlinear_arith);
        vstd::arithmetic::mul::lemma_mul_nonnegative(nb - 1, n);
        law_zero_stream(comb, fs, nb - 1, n);
        assert(comb.subrange((nb - 1) * n, nb * n) =~= zeros(n));
        law_zero_input(fs[nb - 1], n);
        assert(crate::framer::run_state(zero_model(n), comb, fs, nb, n) == zero_model(n));
        assert(crate::framer::block_out(zero_model(n), comb, fs, nb - 1, n) == zeros(n));
        assert(crate::framer::outs_concat(zero_model(n), comb, fs, nb, n) =~= zeros(nb * n));
    }
}

} // verus!
