//! Buffer framer behavior: errors, conservation under re-framing,
//! determinism, and silence propagation.

use crunchy::DCTCrush;
use crunchy::ParamsBlock;
use crunchy::ProcessError;
use crunchy::ProcessStatus;

const ONE: i64 = 1048576;
const N: usize = 64;

fn signal(len: usize, seed: i64) -> Vec<i64> {
    let mut v = Vec::with_capacity(len);
    let mut x: i64 = seed;
    for _ in 0..len {
        x = (x.wrapping_mul(1103515245).wrapping_add(12345)) % 1048576;
        v.push(x / 2);
    }
    v
}

fn frames(count: usize) -> Vec<ParamsBlock> {
    let mut v = Vec::new();
    for _ in 0..count {
        v.push(ParamsBlock::new(N));
    }
    v
}

fn distorting_frames(count: usize) -> Vec<ParamsBlock> {
    let mut v = Vec::new();
    for _ in 0..count {
        v.push(ParamsBlock::from_params(
            vec![3 * ONE / 2; N],
            vec![ONE / 4; N],
            vec![ONE / 4; N],
            vec![ONE / 2; N],
            vec![ONE; N],
        ));
    }
    v
}

#[test]
fn empty_buffer_reports_no_channels() {
    let mut framer = DCTCrush::new(N, 2);
    let mut buffer: Vec<Vec<i64>> = Vec::new();
    let fr = frames(0);
    assert_eq!(
        framer.process(&mut buffer, &fr),
        ProcessStatus::Error(ProcessError::NoChannels)
    );
}

#[test]
fn missing_channels_report_too_few() {
    let mut framer = DCTCrush::new(N, 2);
    let mut buffer: Vec<Vec<i64>> = vec![signal(100, 5)];
    let fr = frames(1);
    assert_eq!(
        framer.process(&mut buffer, &fr),
        ProcessStatus::Error(ProcessError::TooFewChannels)
    );
}

#[test]
fn extra_channels_pass_through_untouched() {
    let mut framer = DCTCrush::new(N, 1);
    let extra = signal(128, 21);
    let mut buffer = vec![signal(128, 5), extra.clone()];
    let fr = frames(2);
    assert_eq!(framer.process(&mut buffer, &fr), ProcessStatus::Normal);
    assert_eq!(buffer[1], extra, "channels beyond the configured count pass through");
}

#[test]
fn zero_input_gives_zero_output() {
    let mut framer = DCTCrush::new(N, 2);
    let fr = distorting_frames(2);
    let mut buffer = vec![vec![0i64; 150], vec![0i64; 150]];
    assert_eq!(framer.process(&mut buffer, &fr), ProcessStatus::Normal);
    for ch in &buffer {
        assert!(ch.iter().all(|&v| v == 0));
    }
    // And again, with a length that is an exact multiple of the block.
    let fr2 = distorting_frames(3);  // 22 pending + 170 new = 3 blocks
    let mut buffer2 = vec![vec![0i64; 170], vec![0i64; 170]];
    assert_eq!(framer.process(&mut buffer2, &fr2), ProcessStatus::Normal);
    for ch in &buffer2 {
        assert!(ch.iter().all(|&v| v == 0));
    }
}

#[test]
fn reframing_conserves_output() {
    // One call of 128 samples versus calls of 100 then 28: identical
    // streams, sample for sample.
    let input = signal(128, 42);

    let mut one_call = DCTCrush::new(N, 1);
    let mut whole = vec![input.clone()];
    let fr2 = distorting_frames(2);
    assert_eq!(one_call.process(&mut whole, &fr2), ProcessStatus::Normal);

    let mut two_calls = DCTCrush::new(N, 1);
    let mut part1 = vec![input[..100].to_vec()];
    let mut part2 = vec![input[100..].to_vec()];
    let fr1 = distorting_frames(1);
    assert_eq!(two_calls.process(&mut part1, &fr1), ProcessStatus::Normal);
    let fr1b = distorting_frames(1);
    assert_eq!(two_calls.process(&mut part2, &fr1b), ProcessStatus::Normal);

    let mut split_output = part1[0].clone();
    split_output.extend_from_slice(&part2[0]);
    assert_eq!(whole[0], split_output, "chunking must be unobservable");

    // The two framers also agree on everything they emit afterwards.
    let tail_input = signal(64, 1);
    let mut a = vec![tail_input.clone()];
    let mut b = vec![tail_input];
    let fra = distorting_frames(1);
    let frb = distorting_frames(1);
    assert_eq!(one_call.process(&mut a, &fra), ProcessStatus::Normal);
    assert_eq!(two_calls.process(&mut b, &frb), ProcessStatus::Normal);
    assert_eq!(a[0], b[0], "states after re-framed calls must agree");
}

#[test]
fn zero_length_call_is_a_no_op() {
    let mut framer = DCTCrush::new(N, 2);
    let mut buffer: Vec<Vec<i64>> = vec![Vec::new(), Vec::new()];
    let fr = frames(0);
    assert_eq!(framer.process(&mut buffer, &fr), ProcessStatus::Normal);
    assert!(buffer[0].is_empty() && buffer[1].is_empty());
}

#[test]
fn calls_smaller_than_one_block_only_exchange_with_the_carry() {
    // Three calls of 30 samples: the first block completes during the
    // second call; every emitted sample before that is carried silence.
    let input = signal(90, 9);
    let mut framer = DCTCrush::new(N, 1);
    let mut emitted = Vec::new();
    for (start, nb) in [(0usize, 0usize), (30, 0), (60, 1)] {
        let mut buffer = vec![input[start..start + 30].to_vec()];
        let fr = frames(nb);
        assert_eq!(framer.process(&mut buffer, &fr), ProcessStatus::Normal);
        emitted.extend_from_slice(&buffer[0]);
    }
    // The first block's worth of output is the initial silent carry.
    assert!(emitted[..N].iter().all(|&v| v == 0));

    // The same stream fed in one call emits identical samples.
    let mut reference = DCTCrush::new(N, 1);
    let mut buffer = vec![input.clone()];
    let fr = frames(1);
    assert_eq!(reference.process(&mut buffer, &fr), ProcessStatus::Normal);
    assert_eq!(emitted, buffer[0]);
}

#[test]
fn framer_is_deterministic() {
    let input = signal(200, 77);
    let mut outputs = Vec::new();
    for _ in 0..2 {
        let mut framer = DCTCrush::new(N, 2);
        let mut buffer = vec![input.clone(), input.clone()];
        let fr = distorting_frames(3);
        assert_eq!(framer.process(&mut buffer, &fr), ProcessStatus::Normal);
        outputs.push(buffer);
    }
    assert_eq!(outputs[0], outputs[1], "identical runs must be bit-identical");
}

#[test]
fn stream_is_conserved_and_delayed_under_bypass() {
    // Feed three aligned blocks under bypass: after one block of framer
    // delay and one block of transform warm-up, the input reappears.
    let input = signal(64, 13);
    let mut framer = DCTCrush::new(N, 1);

    let mut call1 = vec![input.clone()];
    let fr1 = frames(1);
    assert_eq!(framer.process(&mut call1, &fr1), ProcessStatus::Normal);
    assert!(call1[0].iter().all(|&v| v == 0), "first block: framer carry is silence");

    let zeros = vec![0i64; 64];
    let mut call2 = vec![zeros.clone()];
    let fr2 = frames(1);
    assert_eq!(framer.process(&mut call2, &fr2), ProcessStatus::Normal);
    for i in 0..64 {
        assert!(call2[0][i].abs() <= 105, "second block: transform warm-up");
    }

    let mut call3 = vec![zeros];
    let fr3 = frames(1);
    assert_eq!(framer.process(&mut call3, &fr3), ProcessStatus::Normal);
    for i in 0..64 {
        let err = (call3[0][i] - input[i]).abs();
        assert!(err <= 105, "third block, sample {i}: error {err}");
    }
}
