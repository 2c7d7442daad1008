//! Transform engine, overlap-add wrapper and channel processor behavior.

use crunchy::DCT;
use crunchy::MDCT;
use crunchy::ParamsBlock;
use crunchy::ProcessError;
use crunchy::ProcessStatus;
use crunchy::SingleChannelProcessor;

const ONE: i64 = 1048576;
const N: usize = 64;

/// A deterministic, moderately busy test signal within one unit.
fn signal(len: usize, seed: i64) -> Vec<i64> {
    let mut v = Vec::with_capacity(len);
    let mut x: i64 = seed;
    for _ in 0..len {
        // A simple linear congruential walk, scaled to about +/- 0.5.
        x = (x.wrapping_mul(1103515245).wrapping_add(12345)) % 1048576;
        v.push(x / 2);
    }
    v
}

fn bypass_params(n: usize) -> ParamsBlock {
    ParamsBlock::new(n)
}

#[test]
fn dct_round_trip_within_tolerance() {
    let m = 2 * N;
    let dct = DCT::new(m);
    let input = signal(m, 7);
    let mut coeffs = vec![0i64; m];
    let mut back = vec![0i64; m];
    dct.dct(&input, &mut coeffs);
    dct.idct(&coeffs, &mut back);
    for i in 0..m {
        let err = (back[i] - input[i]).abs();
        assert!(err <= 105, "sample {i}: error {err} exceeds 1e-4 of unity");
    }
}

#[test]
fn dct_of_silence_is_silence() {
    let m = 2 * N;
    let dct = DCT::new(m);
    let input = vec![0i64; m];
    let mut coeffs = vec![1i64; m];
    dct.dct(&input, &mut coeffs);
    assert!(coeffs.iter().all(|&c| c == 0));
}

#[test]
fn mdct_bypass_reproduces_input_delayed_one_block() {
    let mut mdct = MDCT::new(N);
    let b1 = signal(N, 3);
    let b2 = signal(N, 11);
    let mut coeffs = vec![0i64; 2 * N];
    let mut out1 = vec![0i64; N];
    let mut out2 = vec![0i64; N];
    mdct.mdct(&b1, &mut coeffs);
    mdct.imdct(&coeffs, &mut out1);
    mdct.mdct(&b2, &mut coeffs);
    mdct.imdct(&coeffs, &mut out2);
    // Warm-up block: silence, within rounding.
    for i in 0..N {
        assert!(out1[i].abs() <= 105, "warm-up sample {i} = {}", out1[i]);
    }
    // Second block: the first block, delayed by exactly N samples.
    for i in 0..N {
        let err = (out2[i] - b1[i]).abs();
        assert!(err <= 105, "sample {i}: error {err} exceeds 1e-4 of unity");
    }
}

#[test]
fn impulse_through_bypass_channel() {
    let mut proc = SingleChannelProcessor::new(N);
    let params = bypass_params(N);
    let mut block1 = vec![0i64; N];
    block1[0] = ONE;
    let block2 = vec![0i64; N];
    let mut out1 = vec![0i64; N];
    let mut out2 = vec![0i64; N];
    assert_eq!(proc.process_block(&block1, &mut out1, &params), ProcessStatus::Normal);
    assert_eq!(proc.process_block(&block2, &mut out2, &params), ProcessStatus::Normal);
    // First block of output: warm-up latency, all zeros within 1e-3.
    for i in 0..N {
        assert!(out1[i].abs() <= 1048, "warm-up sample {i} = {}", out1[i]);
    }
    // Second block: the impulse reconstructed at its original offset.
    assert!((out2[0] - ONE).abs() <= 1048, "impulse magnitude {}", out2[0]);
    for i in 1..N {
        assert!(out2[i].abs() <= 1048, "residual at {i} = {}", out2[i]);
    }
}

#[test]
fn wrong_block_length_reports_mismatch() {
    let mut proc = SingleChannelProcessor::new(N);
    let params = bypass_params(N);
    let short = vec![0i64; N - 1];
    let mut out = vec![0i64; N];
    assert_eq!(
        proc.process_block(&short, &mut out, &params),
        ProcessStatus::Error(ProcessError::BlockSizeMismatch)
    );
}

#[test]
fn channel_is_deterministic() {
    let params = ParamsBlock::from_params(
        vec![3 * ONE / 2; N],
        vec![ONE / 3; N],
        vec![ONE / 5; N],
        vec![3 * ONE / 4; N],
        vec![ONE / 2; N],
    );
    let block = signal(N, 99);
    let mut first = Vec::new();
    for _ in 0..2 {
        let mut proc = SingleChannelProcessor::new(N);
        let mut out = vec![0i64; N];
        let mut collected = Vec::new();
        for _ in 0..3 {
            assert_eq!(proc.process_block(&block, &mut out, &params), ProcessStatus::Normal);
            collected.extend_from_slice(&out);
        }
        if first.is_empty() {
            first = collected;
        } else {
            assert_eq!(first, collected, "identical runs must be bit-identical");
        }
    }
}

#[test]
fn distorted_channel_stays_silent_on_silence() {
    let params = ParamsBlock::from_params(
        vec![2 * ONE; N],
        vec![ONE / 2; N],
        vec![ONE / 2; N],
        vec![ONE / 2; N],
        vec![2 * ONE; N],
    );
    let mut proc = SingleChannelProcessor::new(N);
    let block = vec![0i64; N];
    let mut out = vec![7i64; N];
    for _ in 0..3 {
        assert_eq!(proc.process_block(&block, &mut out, &params), ProcessStatus::Normal);
        assert!(out.iter().all(|&v| v == 0), "silence must map to exact silence");
    }
}
