//! Overlap-add transform wrapper.
//!
//! The forward path transforms a working vector made of the previous block
//! followed by the current one, so each transform window spans two blocks
//! with 50% overlap.  The inverse path windows the reconstruction and adds
//! the windowed trailing half kept from the previous call, which cancels
//! the aliasing of the block transform and delays the signal by exactly one
//! block.  The two window halves of each output position sum to `ONE`
//! exactly, so a bypassed round trip reproduces the input (delayed) up to
//! rounding.

use vstd::prelude::*;

use crate::dct::COEF_LIMIT;
use crate::dct::COEF_RAW_LIMIT;
use crate::dct::DCT;
use crate::dct::FWD_IN_LIMIT;
use crate::dct::Y_LIMIT;
use crate::dct::dct_fwd;
use crate::dct::dct_inv;
use crate::fixed::COS_ONE;
use crate::fixed::ONE;
use crate::fixed::floor_div_nn;
use crate::fixed::ints;
use crate::fixed::lemma_mul_mag;
use crate::fixed::lemma_mulq_unit_mag;
use crate::fixed::mulq;
use crate::fixed::mulq_s;
use crate::trig::cos_entry_s;
use crate::trig::cos_table_s;

verus! {

/// Magnitude cap on samples leaving the inverse path: window product plus
/// carried tail.
pub const WET_LIMIT: i64 = 137400000000;

/// First window half: `sin(pi * i / (2 n))^2` at scale `ONE`, read off the
/// cosine table through `sin^2 x == (1 - cos 2 x) / 2`.
pub open spec fn win_half_s(i: int, n: int) -> int {
    (COS_ONE - cos_entry_s(4 * i, 2 * n)) / 128
}

/// The analysis/synthesis window over both halves: the upper half is the
/// exact complement of the lower, so overlapping halves sum to `ONE`.
pub open spec fn window_s(n: int) -> Seq<int> {
    Seq::new((2 * n) as nat, |i: int| if i < n { win_half_s(i, n) } else { ONE - win_half_s(i - n, n) })
}

/// Overlapping window halves sum to `ONE` exactly.
pub proof fn lemma_window_tdac(n: int, i: int)
    requires
        1 <= n,
        0 <= i < n,
    ensures
        window_s(n)[i] + window_s(n)[i + n] == ONE,
{
}

/// The inverse path's output: the reconstruction's leading half, windowed,
/// plus the carried tail.
pub open spec fn imdct_out_s(y: Seq<int>, w: Seq<int>, tail: Seq<int>, n: int) -> Seq<int> {
    Seq::new(n as nat, |i: int| mulq_s(y[i], w[i]) + tail[i])
}

/// The tail carried to the next call: the reconstruction's trailing half,
/// windowed.
pub open spec fn imdct_tail_s(y: Seq<int>, w: Seq<int>, n: int) -> Seq<int> {
    Seq::new(n as nat, |i: int| mulq_s(y[n + i], w[n + i]))
}

/// Overlap-add wrapper around the transform engine, carrying one block of
/// forward history and one block of inverse tail.
pub struct MDCT {
    /// The block size.
    pub n: usize,
    /// The transform engine, of size `2 n`.
    pub dct: DCT,
    /// The window, of length `2 n`.
    pub window: Vec<i64>,
    /// The previous block, forming the working vector's leading half.
    pub history: Vec<i64>,
    /// The windowed trailing half of the previous reconstruction.
    pub tail: Vec<i64>,
    /// Scratch: the working vector handed to the forward transform.
    pub work: Vec<i64>,
    /// Scratch: the raw inverse reconstruction.
    pub ybuf: Vec<i64>,
}

impl MDCT {
    /// Structural soundness: engine, window and registers match the block
    /// size; the window is canonical; the registers are within range.
    pub open spec fn wf(&self) -> bool {
        &&& 1 <= self.n <= 128
        &&& self.dct.wf()
        &&& self.dct.m == 2 * self.n
        &&& self.window@.len() == 2 * self.n
        &&& ints(self.window@) == window_s(self.n as int)
        &&& forall|i: int| 0 <= i < self.window@.len() ==> 0 <= #[trigger] self.window@[i] <= ONE
        &&& self.history@.len() == self.n
        &&& forall|i: int|
            0 <= i < self.history@.len() ==> -FWD_IN_LIMIT <= #[trigger] self.history@[i]
                <= FWD_IN_LIMIT
        &&& self.tail@.len() == self.n
        &&& forall|i: int|
            0 <= i < self.tail@.len() ==> -Y_LIMIT <= #[trigger] self.tail@[i] <= Y_LIMIT
        &&& self.work@.len() == 2 * self.n
        &&& self.ybuf@.len() == 2 * self.n
    }

    /// Build the wrapper for one block size, with silent history and tail.
    pub fn new(block_size: usize) -> (r: MDCT)
        requires
            1 <= block_size <= 128,
        ensures
            r.wf(),
            r.n == block_size,
            forall|i: int| 0 <= i < r.history@.len() ==> #[trigger] r.history@[i] == 0,
            forall|i: int| 0 <= i < r.tail@.len() ==> #[trigger] r.tail@[i] == 0,
    {
        let n = block_size;
        let dct = DCT::new(2 * n);
        let mut window: Vec<i64> = Vec::new();
        let mut i: usize = 0;
        while i < n
            invariant
                1 <= n <= 128,
                dct.wf(),
                dct.m == 2 * n,
                i <= n,
                window@.len() == i,
                forall|j: int| 0 <= j < i ==> window@[j] == win_half_s(j, n as int),
                forall|j: int| 0 <= j < i ==> 0 <= #[trigger] window@[j] <= ONE,
            decreases n - i,
        {
            let c = dct.tbl[4 * i];
            proof {
                assert(0 <= 4 * (i as int) < 8 * (n as int));
                assert(ints(dct.tbl@) == cos_table_s(dct.m as int));
                assert(cos_table_s(dct.m as int)[4 * (i as int)] == cos_entry_s(
                    4 * (i as int),
                    dct.m as int,
                ));
                assert(ints(dct.tbl@)[4 * (i as int)] == dct.tbl@[4 * (i as int)] as int);
                assert(dct.tbl@[4 * i as int] == cos_entry_s(4 * i as int, 2 * n as int));
                vstd::arithmetic::div_mod::lemma_div_pos_is_pos(COS_ONE as int - c as int, 128);
                vstd::arithmetic::div_mod::lemma_div_is_ordered(
                    COS_ONE as int - c as int,
                    2 * COS_ONE as int,
                    128,
                );
            }
            let w = floor_div_nn(COS_ONE - c, 128);
            window.push(w);
            i = i + 1;
        }
        let mut i: usize = 0;
        while i < n
            invariant
                1 <= n <= 128,
                i <= n,
                window@.len() == n + i,
                forall|j: int| 0 <= j < n ==> window@[j] == win_half_s(j, n as int),
                forall|j: int| 0 <= j < n + i ==> 0 <= #[trigger] window@[j] <= ONE,
                forall|j: int|
                    n <= j < n + i ==> window@[j] == ONE - win_half_s(j - n, n as int),
            decreases n - i,
        {
            let w0 = window[i];
            window.push(ONE - w0);
            i = i + 1;
        }
        let history = make_zeros(n);
        let tail = make_zeros(n);
        let work = make_zeros(2 * n);
        let ybuf = make_zeros(2 * n);
        let r = MDCT { n, dct, window, history, tail, work, ybuf };
        proof {
            assert(ints(r.window@) =~= window_s(n as int));
        }
        r
    }

    /// Forward path: transform the previous block followed by this one,
    /// then keep this block as the next call's history.
    pub fn mdct(&mut self, block: &Vec<i64>, output_target: &mut Vec<i64>)
        requires
            old(self).wf(),
            block@.len() == old(self).n,
            old(output_target)@.len() == 2 * old(self).n,
            forall|i: int|
                0 <= i < block@.len() ==> -FWD_IN_LIMIT <= #[trigger] block@[i] <= FWD_IN_LIMIT,
        ensures
            final(self).wf(),
            final(self).n == old(self).n,
            final(self).dct == old(self).dct,
            final(self).window == old(self).window,
            final(self).tail == old(self).tail,
            final(self).history@ == block@,
            final(output_target)@.len() == 2 * old(self).n,
            ints(final(output_target)@) == dct_fwd(
                ints(old(self).history@) + ints(block@),
                cos_table_s(2 * old(self).n as int),
            ),
            forall|k: int|
                0 <= k < final(output_target)@.len() ==> -COEF_RAW_LIMIT
                    <= #[trigger] final(output_target)@[k] <= COEF_RAW_LIMIT,
    {
        let n = self.n;
        let mut i: usize = 0;
        while i < n
            invariant
                old(self).wf(),
                n == old(self).n,
                *self == (MDCT { work: self.work, ..*old(self) }),
                self.work@.len() == 2 * n,
                i <= n,
                forall|j: int| 0 <= j < i ==> self.work@[j] == old(self).history@[j],
            decreases n - i,
        {
            let v = self.history[i];
            self.work[i] = v;
            i = i + 1;
        }
        let mut i: usize = 0;
        while i < n
            invariant
                old(self).wf(),
                n == old(self).n,
                block@.len() == n,
                *self == (MDCT { work: self.work, ..*old(self) }),
                self.work@.len() == 2 * n,
                i <= n,
                forall|j: int| 0 <= j < n ==> self.work@[j] == old(self).history@[j],
                forall|j: int| n <= j < n + i ==> self.work@[j] == block@[j - n],
            decreases n - i,
        {
            let v = block[i];
            self.work[n + i] = v;
            i = i + 1;
        }
        proof {
            assert(ints(self.work@) =~= ints(old(self).history@) + ints(block@));
        }
        self.dct.dct(&self.work, output_target);
        let mut i: usize = 0;
        while i < n
            invariant
                old(self).wf(),
                n == old(self).n,
                block@.len() == n,
                *self == (MDCT { work: self.work, history: self.history, ..*old(self) }),
                self.history@.len() == n,
                self.work@.len() == 2 * n,
                forall|j: int|
                    0 <= j < block@.len() ==> -FWD_IN_LIMIT <= #[trigger] block@[j] <= FWD_IN_LIMIT,
                i <= n,
                forall|j: int| 0 <= j < i ==> self.history@[j] == block@[j],
                forall|j: int|
                    i <= j < n ==> #[trigger] self.history@[j] == old(self).history@[j],
            decreases n - i,
        {
            let v = block[i];
            self.history[i] = v;
            i = i + 1;
        }
        proof {
            assert(self.history@ =~= block@);
        }
    }

    /// Inverse path: reconstruct, window, add the carried tail, and keep
    /// the windowed trailing half for the next call.
    pub fn imdct(&mut self, dct_block: &Vec<i64>, output_block: &mut Vec<i64>)
        requires
            old(self).wf(),
            dct_block@.len() == 2 * old(self).n,
            old(output_block)@.len() == old(self).n,
            forall|i: int|
                0 <= i < dct_block@.len() ==> -COEF_LIMIT <= #[trigger] dct_block@[i] <= COEF_LIMIT,
        ensures
            final(self).wf(),
            final(self).n == old(self).n,
            final(self).dct == old(self).dct,
            final(self).window == old(self).window,
            final(self).history == old(self).history,
            final(output_block)@.len() == old(self).n,
            ints(final(output_block)@) == imdct_out_s(
                dct_inv(ints(dct_block@), cos_table_s(2 * old(self).n as int)),
                window_s(old(self).n as int),
                ints(old(self).tail@),
                old(self).n as int,
            ),
            ints(final(self).tail@) == imdct_tail_s(
                dct_inv(ints(dct_block@), cos_table_s(2 * old(self).n as int)),
                window_s(old(self).n as int),
                old(self).n as int,
            ),
            forall|i: int|
                0 <= i < final(output_block)@.len() ==> -WET_LIMIT
                    <= #[trigger] final(output_block)@[i] <= WET_LIMIT,
    {
        let n = self.n;
        let ghost y = dct_inv(ints(dct_block@), cos_table_s(2 * old(self).n as int));
        let ghost w = window_s(old(self).n as int);
        self.dct.idct(dct_block, &mut self.ybuf);
        let mut i: usize = 0;
        while i < n
            invariant
                old(self).wf(),
                n == old(self).n,
                *self == (MDCT { ybuf: self.ybuf, ..*old(self) }),
                self.ybuf@.len() == 2 * n,
                ints(self.ybuf@) == y,
                forall|j: int|
                    0 <= j < self.ybuf@.len() ==> -Y_LIMIT <= #[trigger] self.ybuf@[j] <= Y_LIMIT,
                y == dct_inv(ints(dct_block@), cos_table_s(2 * old(self).n as int)),
                w == window_s(old(self).n as int),
                output_block@.len() == n,
                i <= n,
                forall|j: int| 0 <= j < i ==> output_block@[j] == mulq_s(y[j], w[j]) + ints(
                    old(self).tail@,
                )[j],
                forall|j: int|
                    0 <= j < i ==> -WET_LIMIT <= #[trigger] output_block@[j] <= WET_LIMIT,
            decreases n - i,
        {
            proof {
                lemma_mul_mag(
                    self.ybuf@[i as int] as int,
                    self.window@[i as int] as int,
                    Y_LIMIT as int,
                    ONE as int,
                );
                lemma_mulq_unit_mag(
                    self.ybuf@[i as int] as int,
                    self.window@[i as int] as int,
                    Y_LIMIT as int,
                );
            }
            let p = mulq(self.ybuf[i], self.window[i]);
            let t = self.tail[i];
            output_block[i] = p + t;
            i = i + 1;
        }
        let mut i: usize = 0;
        while i < n
            invariant
                old(self).wf(),
                n == old(self).n,
                *self == (MDCT { ybuf: self.ybuf, tail: self.tail, ..*old(self) }),
                self.ybuf@.len() == 2 * n,
                ints(self.ybuf@) == y,
                forall|j: int|
                    0 <= j < self.ybuf@.len() ==> -Y_LIMIT <= #[trigger] self.ybuf@[j] <= Y_LIMIT,
                y == dct_inv(ints(dct_block@), cos_table_s(2 * old(self).n as int)),
                w == window_s(old(self).n as int),
                self.tail@.len() == n,
                i <= n,
                forall|j: int| 0 <= j < i ==> self.tail@[j] == mulq_s(y[n + j], w[n + j]),
                forall|j: int| 0 <= j < i ==> -Y_LIMIT <= #[trigger] self.tail@[j] <= Y_LIMIT,
            decreases n - i,
        {
            proof {
                lemma_mul_mag(
                    self.ybuf@[n + i as int] as int,
                    self.window@[n + i as int] as int,
                    Y_LIMIT as int,
                    ONE as int,
                );
                lemma_mulq_unit_mag(
                    self.ybuf@[n + i as int] as int,
                    self.window@[n + i as int] as int,
                    Y_LIMIT as int,
                );
            }
            let p = mulq(self.ybuf[n + i], self.window[n + i]);
            self.tail[i] = p;
            i = i + 1;
        }
        proof {
            assert(ints(output_block@) =~= imdct_out_s(y, w, ints(old(self).tail@), n as int));
            assert(ints(self.tail@) =~= imdct_tail_s(y, w, n as int));
        }
    }
}

/// A zero-filled vector of the given length.
pub fn make_zeros(len: usize) -> (r: Vec<i64>)
    ensures
        r@.len() == len,
        forall|i: int| 0 <= i < r@.len() ==> #[trigger] r@[i] == 0,
{
    let mut v: Vec<i64> = Vec::new();
    let mut i: usize = 0;
    while i < len
        invariant
            i <= len,
            v@.len() == i,
            forall|j: int| 0 <= j < i ==> #[trigger] v@[j] == 0,
        decreases len - i,
    {
        v.push(0);
        i = i + 1;
    }
    v
}

} // verus!
