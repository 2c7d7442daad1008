//! Channel processor: one channel's full processing cycle and state.
//!
//! Each call processes exactly one block: copy the dry block into the
//! delay register, apply drive, transform through the overlap-add wrapper,
//! distort the coefficients with the block-rate crunch and crush controls
//! (read from the middle of their smoothed sequences), reconstruct the wet
//! block, crossfade it with the previous call's dry block — which aligns
//! the dry path with the wet path's one-block latency — and apply gain.
//! A block of the wrong length is rejected with a structural error.

use vstd::prelude::*;

use crate::dct::FWD_IN_LIMIT;
use crate::dct::dct_fwd;
use crate::dct::dct_inv;
use crate::distort::apply_distortion;
use crate::distort::distort_seq;
use crate::fixed::ONE;
use crate::fixed::ints;
use crate::fixed::lemma_mul_mag;
use crate::fixed::lemma_mulq_unit_mag;
use crate::fixed::lemma_rdiv_mag;
use crate::fixed::mulq;
use crate::fixed::mulq_s;
use crate::mdct::MDCT;
use crate::mdct::WET_LIMIT;
use crate::mdct::imdct_out_s;
use crate::mdct::imdct_tail_s;
use crate::mdct::make_zeros;
use crate::mdct::window_s;
use crate::params::GAIN_LIMIT;
use crate::params::ParamsBlock;
use crate::status::ProcessError;
use crate::status::ProcessStatus;
use crate::trig::cos_table_s;

verus! {

/// Magnitude cap on incoming samples: 4.0.
pub const IN_LIMIT: i64 = 4194304;

/// Magnitude cap on the crossfade sum before the post-gain.
pub const MIXED_LIMIT: i64 = 137404194304;

/// Magnitude cap on outgoing samples.
pub const OUT_LIMIT: i64 = 4396934217728;

/// The block after the per-sample pre-gain.
pub open spec fn driven_s(x: Seq<int>, drive: Seq<int>) -> Seq<int> {
    Seq::new(x.len(), |i: int| mulq_s(x[i], drive[i]))
}

/// The raw reconstruction of one cycle: forward transform of history plus
/// driven block, distortion, inverse transform.
pub open spec fn chan_y_s(
    hist: Seq<int>,
    x: Seq<int>,
    drive: Seq<int>,
    crunch: int,
    crush: int,
    n: int,
) -> Seq<int> {
    dct_inv(
        distort_seq(dct_fwd(hist + driven_s(x, drive), cos_table_s(2 * n)), crunch, crush),
        cos_table_s(2 * n),
    )
}

/// The wet block of one cycle: the reconstruction, windowed and
/// overlap-added with the carried tail.
pub open spec fn chan_wet_s(
    hist: Seq<int>,
    tail: Seq<int>,
    x: Seq<int>,
    drive: Seq<int>,
    crunch: int,
    crush: int,
    n: int,
) -> Seq<int> {
    imdct_out_s(chan_y_s(hist, x, drive, crunch, crush, n), window_s(n), tail, n)
}

/// The tail carried out of one cycle.
pub open spec fn chan_tail2_s(
    hist: Seq<int>,
    x: Seq<int>,
    drive: Seq<int>,
    crunch: int,
    crush: int,
    n: int,
) -> Seq<int> {
    imdct_tail_s(chan_y_s(hist, x, drive, crunch, crush, n), window_s(n), n)
}

/// The crossfade and post-gain: wet scaled by mix, plus the previous dry
/// block scaled by its complement, all scaled by gain.
pub open spec fn mix_gain_s(
    wet: Seq<int>,
    delay: Seq<int>,
    mix: Seq<int>,
    gain: Seq<int>,
    n: int,
) -> Seq<int> {
    Seq::new(
        n as nat,
        |i: int| mulq_s(mulq_s(wet[i], mix[i]) + mulq_s(delay[i], ONE - mix[i]), gain[i]),
    )
}

/// The output block of one full cycle.
pub open spec fn chan_out_s(
    hist: Seq<int>,
    tail: Seq<int>,
    delay: Seq<int>,
    x: Seq<int>,
    drive: Seq<int>,
    crunch: int,
    crush: int,
    mix: Seq<int>,
    gain: Seq<int>,
    n: int,
) -> Seq<int> {
    mix_gain_s(chan_wet_s(hist, tail, x, drive, crunch, crush, n), delay, mix, gain, n)
}

/// The mathematical state of one channel processor: its transform history,
/// its overlap tail, and its dry-signal delay register.
pub ghost struct ChanModel {
    /// The previous driven block.
    pub hist: Seq<int>,
    /// The windowed trailing half of the previous reconstruction.
    pub tail: Seq<int>,
    /// The previous dry block.
    pub delay: Seq<int>,
}

/// The control values one cycle consumes: the per-sample sequences, and
/// the block-rate crunch and crush read from the middle of their
/// sequences.
pub ghost struct FrameModel {
    /// Pre-gain per sample.
    pub drive: Seq<int>,
    /// The block's soft-clip control.
    pub crunch: int,
    /// The block's quantizer control.
    pub crush: int,
    /// Dry/wet balance per sample.
    pub mix: Seq<int>,
    /// Post-gain per sample.
    pub gain: Seq<int>,
}

/// The silent state a fresh processor starts in.
pub open spec fn zero_model(n: int) -> ChanModel {
    ChanModel { hist: crate::fixed::zeros(n), tail: crate::fixed::zeros(n), delay: crate::fixed::zeros(n) }
}

/// The controls a frame hands to one cycle.
pub open spec fn frame_model(pb: ParamsBlock) -> FrameModel {
    FrameModel {
        drive: ints(pb.drive@),
        crunch: ints(pb.crunch@)[pb.block_size as int / 2],
        crush: ints(pb.crush@)[pb.block_size as int / 2],
        mix: ints(pb.mix@),
        gain: ints(pb.gain@),
    }
}

/// The output of one cycle as a function of state, input and controls.
pub open spec fn chan_step_out_s(s: ChanModel, x: Seq<int>, f: FrameModel, n: int) -> Seq<int> {
    chan_out_s(s.hist, s.tail, s.delay, x, f.drive, f.crunch, f.crush, f.mix, f.gain, n)
}

/// The state after one cycle as a function of state, input and controls.
pub open spec fn chan_step_next_s(s: ChanModel, x: Seq<int>, f: FrameModel, n: int) -> ChanModel {
    ChanModel {
        hist: driven_s(x, f.drive),
        tail: chan_tail2_s(s.hist, x, f.drive, f.crunch, f.crush, n),
        delay: x,
    }
}

/// One channel's processor: the overlap-add wrapper, the coefficient
/// scratch vector, and the dry-signal delay register.
pub struct SingleChannelProcessor {
    /// The block size.
    pub n: usize,
    /// The overlap-add transform wrapper and its state.
    pub mdct: MDCT,
    /// Scratch: the coefficient vector of the current cycle.
    pub dct_buffer: Vec<i64>,
    /// The previous call's dry block, crossfaded into the next output.
    pub delay: Vec<i64>,
}

impl SingleChannelProcessor {
    /// Structural soundness: wrapper and registers match the block size;
    /// the delay register is within input range.
    pub open spec fn wf(&self) -> bool {
        &&& 1 <= self.n <= 128
        &&& self.mdct.wf()
        &&& self.mdct.n == self.n
        &&& self.dct_buffer@.len() == 2 * self.n
        &&& self.delay@.len() == self.n
        &&& forall|i: int|
            0 <= i < self.delay@.len() ==> -IN_LIMIT <= #[trigger] self.delay@[i] <= IN_LIMIT
    }

    /// The processor's mathematical state.
    pub open spec fn model(&self) -> ChanModel {
        ChanModel {
            hist: ints(self.mdct.history@),
            tail: ints(self.mdct.tail@),
            delay: ints(self.delay@),
        }
    }

    /// Build a processor with silent state.
    pub fn new(block_size: usize) -> (r: SingleChannelProcessor)
        requires
            1 <= block_size <= 128,
        ensures
            r.wf(),
            r.n == block_size,
            forall|i: int| 0 <= i < r.mdct.history@.len() ==> #[trigger] r.mdct.history@[i] == 0,
            forall|i: int| 0 <= i < r.mdct.tail@.len() ==> #[trigger] r.mdct.tail@[i] == 0,
            forall|i: int| 0 <= i < r.delay@.len() ==> #[trigger] r.delay@[i] == 0,
    {
        SingleChannelProcessor {
            n: block_size,
            mdct: MDCT::new(block_size),
            dct_buffer: make_zeros(2 * block_size),
            delay: make_zeros(block_size),
        }
    }

    /// Process one block into `output`.
    pub fn process_block(
        &mut self,
        block: &Vec<i64>,
        output: &mut Vec<i64>,
        params_block: &ParamsBlock,
    ) -> (r: ProcessStatus)
        requires
            old(self).wf(),
            params_block.wf(),
            params_block.block_size == old(self).n,
            old(output)@.len() == old(self).n,
            forall|i: int|
                0 <= i < block@.len() ==> -IN_LIMIT <= #[trigger] block@[i] <= IN_LIMIT,
        ensures
            final(self).n == old(self).n,
            block@.len() != old(self).n ==> {
                &&& r == ProcessStatus::Error(ProcessError::BlockSizeMismatch)
                &&& *final(self) == *old(self)
                &&& final(output)@ == old(output)@
            },
            block@.len() == old(self).n ==> {
                let n = old(self).n as int;
                let h0 = ints(old(self).mdct.history@);
                let t0 = ints(old(self).mdct.tail@);
                let d0 = ints(old(self).delay@);
                let x = ints(block@);
                let dr = ints(params_block.drive@);
                let cr = ints(params_block.crunch@)[n / 2];
                let cu = ints(params_block.crush@)[n / 2];
                let mi = ints(params_block.mix@);
                let ga = ints(params_block.gain@);
                &&& r == ProcessStatus::Normal
                &&& final(self).wf()
                &&& ints(final(self).mdct.history@) == driven_s(x, dr)
                &&& ints(final(self).mdct.tail@) == chan_tail2_s(h0, x, dr, cr, cu, n)
                &&& final(self).delay@ == block@
                &&& final(output)@.len() == old(self).n
                &&& ints(final(output)@) == chan_out_s(h0, t0, d0, x, dr, cr, cu, mi, ga, n)
                &&& final(self).model() == chan_step_next_s(
                    old(self).model(),
                    x,
                    frame_model(*params_block),
                    n,
                )
                &&& ints(final(output)@) == chan_step_out_s(
                    old(self).model(),
                    x,
                    frame_model(*params_block),
                    n,
                )
                &&& forall|i: int|
                    0 <= i < final(output)@.len() ==> -OUT_LIMIT <= #[trigger] final(output)@[i]
                        <= OUT_LIMIT
            },
    {
        let n = self.n;
        if block.len() != n {
            return ProcessStatus::Error(ProcessError::BlockSizeMismatch);
        }
        let ghost h0 = ints(old(self).mdct.history@);
        let ghost t0 = ints(old(self).mdct.tail@);
        let ghost d0 = ints(old(self).delay@);
        let ghost x = ints(block@);
        let ghost dr = ints(params_block.drive@);
        let ghost mi = ints(params_block.mix@);
        let ghost ga = ints(params_block.gain@);
        let ghost tbl = cos_table_s(2 * n as int);

        // Pre-gain into the output buffer, which doubles as scratch.
        let mut i: usize = 0;
        while i < n
            invariant
                old(self).wf(),
                n == old(self).n,
                *self == *old(self),
                block@.len() == n,
                params_block.wf(),
                params_block.block_size == n,
                x == ints(block@),
                dr == ints(params_block.drive@),
                forall|j: int|
                    0 <= j < block@.len() ==> -IN_LIMIT <= #[trigger] block@[j] <= IN_LIMIT,
                output@.len() == n,
                i <= n,
                forall|j: int| 0 <= j < i ==> output@[j] == driven_s(x, dr)[j],
                forall|j: int|
                    0 <= j < i ==> -FWD_IN_LIMIT <= #[trigger] output@[j] <= FWD_IN_LIMIT,
            decreases n - i,
        {
            proof {
                lemma_mul_mag(
                    block@[i as int] as int,
                    params_block.drive@[i as int] as int,
                    IN_LIMIT as int,
                    GAIN_LIMIT as int,
                );
                lemma_rdiv_mag(
                    block@[i as int] as int * params_block.drive@[i as int] as int,
                    ONE as int,
                    IN_LIMIT as int * GAIN_LIMIT as int,
                );
            }
            let v = mulq(block[i], params_block.drive[i]);
            output[i] = v;
            i = i + 1;
        }
        proof {
            assert(ints(output@) =~= driven_s(x, dr));
        }

        // Forward transform over history plus driven block.
        self.mdct.mdct(&*output, &mut self.dct_buffer);

        // Block-rate distortion of the coefficient vector.
        let cr = params_block.crunch[n / 2];
        let cu = params_block.crush[n / 2];
        proof {
            assert(ints(self.dct_buffer@) == dct_fwd(h0 + driven_s(x, dr), tbl));
        }
        apply_distortion(&mut self.dct_buffer, cr, cu);

        // Inverse transform, windowing and overlap-add into the output.
        self.mdct.imdct(&self.dct_buffer, output);
        let ghost y = chan_y_s(h0, x, dr, cr as int, cu as int, n as int);
        let ghost wet = chan_wet_s(h0, t0, x, dr, cr as int, cu as int, n as int);
        proof {
            assert(ints(self.dct_buffer@) == distort_seq(
                dct_fwd(h0 + driven_s(x, dr), tbl),
                cr as int,
                cu as int,
            ));
            assert(ints(output@) == wet);
        }

        // Crossfade with the previous dry block, then post-gain.
        let mut i: usize = 0;
        while i < n
            invariant
                old(self).wf(),
                n == old(self).n,
                *self == (SingleChannelProcessor {
                    mdct: self.mdct,
                    dct_buffer: self.dct_buffer,
                    ..*old(self)
                }),
                self.delay@.len() == n,
                forall|j: int|
                    0 <= j < self.delay@.len() ==> -IN_LIMIT <= #[trigger] self.delay@[j]
                        <= IN_LIMIT,
                params_block.wf(),
                params_block.block_size == n,
                d0 == ints(self.delay@),
                mi == ints(params_block.mix@),
                ga == ints(params_block.gain@),
                output@.len() == n,
                wet.len() == n,
                i <= n,
                forall|j: int| i <= j < n ==> output@[j] == wet[j],
                forall|j: int|
                    i <= j < n ==> -WET_LIMIT <= #[trigger] output@[j] <= WET_LIMIT,
                forall|j: int| 0 <= j < i ==> output@[j] == mix_gain_s(wet, d0, mi, ga, n as int)[j],
                forall|j: int| 0 <= j < i ==> -OUT_LIMIT <= #[trigger] output@[j] <= OUT_LIMIT,
            decreases n - i,
        {
            let w = output[i];
            let m = params_block.mix[i];
            proof {
                lemma_mul_mag(w as int, m as int, WET_LIMIT as int, ONE as int);
                lemma_mulq_unit_mag(w as int, m as int, WET_LIMIT as int);
                lemma_mul_mag(
                    self.delay@[i as int] as int,
                    ONE as int - m as int,
                    IN_LIMIT as int,
                    ONE as int,
                );
                lemma_mulq_unit_mag(
                    self.delay@[i as int] as int,
                    ONE as int - m as int,
                    IN_LIMIT as int,
                );
            }
            let a = mulq(w, m);
            let b = mulq(self.delay[i], ONE - m);
            let t = a + b;
            proof {
                lemma_mul_mag(
                    t as int,
                    params_block.gain@[i as int] as int,
                    MIXED_LIMIT as int,
                    GAIN_LIMIT as int,
                );
                lemma_rdiv_mag(
                    t as int * params_block.gain@[i as int] as int,
                    ONE as int,
                    MIXED_LIMIT as int * GAIN_LIMIT as int,
                );
            }
            let v = mulq(t, params_block.gain[i]);
            output[i] = v;
            i = i + 1;
        }
        proof {
            assert(ints(output@) =~= mix_gain_s(wet, d0, mi, ga, n as int));
        }

        // The incoming dry block becomes the next call's delay register.
        let ghost pre = *self;
        let mut i: usize = 0;
        while i < n
            invariant
                pre.delay@.len() == n,
                *self == (SingleChannelProcessor { delay: self.delay, ..pre }),
                self.delay@.len() == n,
                block@.len() == n,
                forall|j: int|
                    0 <= j < block@.len() ==> -IN_LIMIT <= #[trigger] block@[j] <= IN_LIMIT,
                i <= n,
                forall|j: int| 0 <= j < i ==> self.delay@[j] == block@[j],
                forall|j: int| i <= j < n ==> #[trigger] self.delay@[j] == pre.delay@[j],
            decreases n - i,
        {
            let v = block[i];
            self.delay[i] = v;
            i = i + 1;
        }
        proof {
            assert(self.delay@ =~= block@);
        }
        ProcessStatus::Normal
    }
}

} // verus!
