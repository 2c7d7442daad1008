//! Distortion-stage and fixed-point arithmetic behavior on concrete values.

use crunchy::distort::apply_distortion;
use crunchy::distort::crunch_bound;
use crunchy::distort::crunch_gain;
use crunchy::distort::crush_step;
use crunchy::fixed::clamp_i;
use crunchy::fixed::mulq;
use crunchy::fixed::round_div;

const ONE: i64 = 1048576;

/// Reference rounding: half away from zero, as the library defines it.
fn rdiv_ref(a: i64, d: i64) -> i64 {
    if a >= 0 {
        (a + d / 2) / d
    } else {
        -((-a + d / 2) / d)
    }
}

#[test]
fn round_div_half_away_from_zero() {
    assert_eq!(round_div(7, 2), 4);
    assert_eq!(round_div(-7, 2), -4);
    assert_eq!(round_div(5, 2), 3);
    assert_eq!(round_div(-5, 2), -3);
    assert_eq!(round_div(6, 3), 2);
    assert_eq!(round_div(0, 5), 0);
    assert_eq!(round_div(1, 3), 0);
    assert_eq!(round_div(2, 3), 1);
}

#[test]
fn mulq_scales_products() {
    assert_eq!(mulq(ONE, ONE), ONE);
    assert_eq!(mulq(ONE / 2, ONE / 2), ONE / 4);
    assert_eq!(mulq(-ONE, 3 * ONE), -3 * ONE);
    assert_eq!(mulq(0, 12345), 0);
}

#[test]
fn clamp_behaves() {
    assert_eq!(clamp_i(5, -3, 3), 3);
    assert_eq!(clamp_i(-5, -3, 3), -3);
    assert_eq!(clamp_i(2, -3, 3), 2);
}

#[test]
fn curve_values_at_half_controls() {
    // crunch = 0.5: squared control is 0.25.
    assert_eq!(crunch_bound(ONE / 2), 52953 - (262144i64 * (52953 - 524)) / ONE);
    assert_eq!(crunch_gain(ONE / 2), ONE + (262144i64 * 9437184) / ONE);
    // crush = 0.5: halfway between the finest and coarsest steps.
    assert_eq!(crush_step(ONE / 2), 3855 + ((ONE / 2) * (65536 - 3855)) / ONE);
}

#[test]
fn curve_endpoints() {
    assert_eq!(crush_step(0), 3855);
    assert_eq!(crush_step(ONE), 65536);
    assert_eq!(crunch_gain(0), ONE);
    assert_eq!(crunch_bound(0), 52953);
    assert_eq!(crunch_bound(ONE), 524);
    assert_eq!(crunch_gain(ONE), 10 * ONE);
}

#[test]
fn curves_are_monotonic_over_sampled_controls() {
    let mut prev_bound = crunch_bound(0);
    let mut prev_gain = crunch_gain(0);
    let mut prev_step = crush_step(0);
    for k in 1..=32 {
        let c = k * (ONE / 32);
        let b = crunch_bound(c);
        let g = crunch_gain(c);
        let s = crush_step(c);
        assert!(b <= prev_bound, "clamp bound must fall with crunch");
        assert!(g >= prev_gain, "compensation gain must rise with crunch");
        assert!(s >= prev_step, "quantizer step must rise with crush");
        prev_bound = b;
        prev_gain = g;
        prev_step = s;
    }
}

#[test]
fn identity_at_zero_controls() {
    let original: Vec<i64> = vec![0, 1, -1, 52953, -70000, 123456, -987654, 268435456];
    let mut buf = original.clone();
    apply_distortion(&mut buf, 0, 0);
    assert_eq!(buf, original);
}

#[test]
fn crush_snaps_to_grid() {
    let original: Vec<i64> = vec![1, -1, 17000, -17000, 123456, -123456, 268435456, 0];
    let mut buf = original.clone();
    let crush = ONE / 2;
    apply_distortion(&mut buf, 0, crush);
    let s = crush_step(crush);
    for (i, &v) in buf.iter().enumerate() {
        assert_eq!(v % s, 0, "coefficient {i} not on the grid");
        assert_eq!(v, rdiv_ref(original[i], s) * s, "coefficient {i} not the rounded value");
        assert!((v - original[i]).abs() <= s / 2 + 1);
    }
}

#[test]
fn crunch_clamps_then_compensates() {
    let original: Vec<i64> = vec![0, 100, -100, 52953, -52953, 200000, -200000, 268435456];
    let mut buf = original.clone();
    let crunch = ONE / 2;
    apply_distortion(&mut buf, crunch, 0);
    let b = crunch_bound(crunch);
    let g = crunch_gain(crunch);
    for (i, &v) in buf.iter().enumerate() {
        let clamped = original[i].clamp(-b, b);
        assert_eq!(v, rdiv_ref(clamped * g, ONE), "coefficient {i}");
        // The post-clamp, pre-gain value lies within the bound.
        assert!(-b <= clamped && clamped <= b);
    }
}

#[test]
fn full_crush_collapses_to_coarsest_grid() {
    let original: Vec<i64> = vec![40000, -40000, 99999, -99999, 268435456, 32768, 1];
    let mut buf = original.clone();
    apply_distortion(&mut buf, 0, ONE);
    for (i, &v) in buf.iter().enumerate() {
        assert_eq!(v % 65536, 0, "coefficient {i} off the coarsest grid");
        assert_eq!(v, rdiv_ref(original[i], 65536) * 65536);
    }
}

#[test]
fn crunch_applies_before_crush() {
    let original: Vec<i64> = vec![300000, -300000, 10000, -10000];
    let mut buf = original.clone();
    let crunch = ONE / 4;
    let crush = 3 * (ONE / 4);
    apply_distortion(&mut buf, crunch, crush);
    let b = crunch_bound(crunch);
    let g = crunch_gain(crunch);
    let s = crush_step(crush);
    for (i, &v) in buf.iter().enumerate() {
        let crunched = rdiv_ref(original[i].clamp(-b, b) * g, ONE);
        assert_eq!(v, rdiv_ref(crunched, s) * s, "coefficient {i}");
    }
}
