//! Parameter frames: one block's worth of control values.
//!
//! A frame holds five sequences of per-sample control values, one per
//! control.  Drive, mix and gain are applied sample-accurately; crunch and
//! crush are read once per block, from the middle element, and applied
//! uniformly to the whole coefficient vector.  The builder that fills a
//! frame from the host's automation state is an external collaborator: the
//! engine only consumes frames, and requires the documented ranges — mix,
//! crunch and crush normalized to `[0, ONE]`, drive and gain nonnegative
//! linear multipliers up to `GAIN_LIMIT`.

use vstd::prelude::*;

use crate::fixed::ONE;

verus! {

/// Magnitude cap on the drive and gain multipliers: 32.0, about +30 dB.
pub const GAIN_LIMIT: i64 = 33554432;

/// One block's worth of smoothed control values.
pub struct ParamsBlock {
    /// The block size every sequence must match.
    pub block_size: usize,
    /// Pre-gain, a linear multiplier per sample.
    pub drive: Vec<i64>,
    /// Spectral soft-clip amount per sample, normalized.
    pub crunch: Vec<i64>,
    /// Spectral quantization amount per sample, normalized.
    pub crush: Vec<i64>,
    /// Dry/wet balance per sample, normalized.
    pub mix: Vec<i64>,
    /// Post-gain, a linear multiplier per sample.
    pub gain: Vec<i64>,
}

impl ParamsBlock {
    /// Every sequence has the block's length and every value is in its
    /// documented range.
    pub open spec fn wf(&self) -> bool {
        &&& self.drive@.len() == self.block_size
        &&& self.crunch@.len() == self.block_size
        &&& self.crush@.len() == self.block_size
        &&& self.mix@.len() == self.block_size
        &&& self.gain@.len() == self.block_size
        &&& forall|i: int|
            0 <= i < self.drive@.len() ==> 0 <= #[trigger] self.drive@[i] <= GAIN_LIMIT
        &&& forall|i: int| 0 <= i < self.crunch@.len() ==> 0 <= #[trigger] self.crunch@[i] <= ONE
        &&& forall|i: int| 0 <= i < self.crush@.len() ==> 0 <= #[trigger] self.crush@[i] <= ONE
        &&& forall|i: int| 0 <= i < self.mix@.len() ==> 0 <= #[trigger] self.mix@[i] <= ONE
        &&& forall|i: int| 0 <= i < self.gain@.len() ==> 0 <= #[trigger] self.gain@[i] <= GAIN_LIMIT
    }

    /// A bypass frame: unit drive, no crunch, no crush, fully wet, unit
    /// gain.
    pub fn new(block_size: usize) -> (r: ParamsBlock)
        ensures
            r.wf(),
            r.block_size == block_size,
            forall|i: int| 0 <= i < r.drive@.len() ==> #[trigger] r.drive@[i] == ONE,
            forall|i: int| 0 <= i < r.crunch@.len() ==> #[trigger] r.crunch@[i] == 0,
            forall|i: int| 0 <= i < r.crush@.len() ==> #[trigger] r.crush@[i] == 0,
            forall|i: int| 0 <= i < r.mix@.len() ==> #[trigger] r.mix@[i] == ONE,
            forall|i: int| 0 <= i < r.gain@.len() ==> #[trigger] r.gain@[i] == ONE,
    {
        ParamsBlock {
            block_size,
            drive: make_filled(block_size, ONE),
            crunch: make_filled(block_size, 0),
            crush: make_filled(block_size, 0),
            mix: make_filled(block_size, ONE),
            gain: make_filled(block_size, ONE),
        }
    }

    /// Adopt one block's worth of already-smoothed, already-normalized
    /// control values from the external parameter source.
    pub fn from_params(
        drive: Vec<i64>,
        crunch: Vec<i64>,
        crush: Vec<i64>,
        mix: Vec<i64>,
        gain: Vec<i64>,
    ) -> (r: ParamsBlock)
        requires
            crunch@.len() == drive@.len(),
            crush@.len() == drive@.len(),
            mix@.len() == drive@.len(),
            gain@.len() == drive@.len(),
            forall|i: int| 0 <= i < drive@.len() ==> 0 <= #[trigger] drive@[i] <= GAIN_LIMIT,
            forall|i: int| 0 <= i < crunch@.len() ==> 0 <= #[trigger] crunch@[i] <= ONE,
            forall|i: int| 0 <= i < crush@.len() ==> 0 <= #[trigger] crush@[i] <= ONE,
            forall|i: int| 0 <= i < mix@.len() ==> 0 <= #[trigger] mix@[i] <= ONE,
            forall|i: int| 0 <= i < gain@.len() ==> 0 <= #[trigger] gain@[i] <= GAIN_LIMIT,
        ensures
            r.wf(),
            r.block_size == drive@.len(),
            r.drive == drive,
            r.crunch == crunch,
            r.crush == crush,
            r.mix == mix,
            r.gain == gain,
    {
        let block_size = drive.len();
        ParamsBlock { block_size, drive, crunch, crush, mix, gain }
    }
}

/// A vector of the given length filled with one value.
pub fn make_filled(len: usize, value: i64) -> (r: Vec<i64>)
    ensures
        r@.len() == len,
        forall|i: int| 0 <= i < r@.len() ==> #[trigger] r@[i] == value,
{
    let mut v: Vec<i64> = Vec::new();
    let mut i: usize = 0;
    while i < len
        invariant
            i <= len,
            v@.len() == i,
            forall|j: int| 0 <= j < i ==> #[trigger] v@[j] == value,
        decreases len - i,
    {
        v.push(value);
        i = i + 1;
    }
    v
}

} // verus!
