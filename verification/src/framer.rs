//! Buffer framer: adapts host buffers of arbitrary length to fixed blocks.
//!
//! A host call hands over one row of samples per channel, of any length.
//! The framer completes and processes as many fixed-size blocks as the
//! carried remainder and the new samples allow, handing each to the
//! channel's processor, and swaps the trailing partial block into a
//! per-channel carry for the next call.  Output written back in place is
//! the processed stream lagging the input by one block plus the carried
//! remainder, so the emitted stream depends only on the concatenation of
//! all input rows — never on how the caller chunks them across calls.

use vstd::prelude::*;

use crate::channel::ChanModel;
use crate::channel::FrameModel;
use crate::channel::IN_LIMIT;
use crate::channel::OUT_LIMIT;
use crate::channel::SingleChannelProcessor;
use crate::channel::chan_step_next_s;
use crate::channel::chan_step_out_s;
use crate::channel::frame_model;
use crate::fixed::ints;
use crate::mdct::make_zeros;
use crate::params::ParamsBlock;
use crate::status::ProcessError;
use crate::status::ProcessStatus;

verus! {

/// The controls of each frame in a sequence of frames.
pub open spec fn frame_models(frames: Seq<ParamsBlock>) -> Seq<FrameModel> {
    frames.map_values(|pb: ParamsBlock| frame_model(pb))
}

/// The channel state after the first `nb` blocks of the combined input
/// stream `comb` (carried remainder followed by the new samples).
pub open spec fn run_state(
    s0: ChanModel,
    comb: Seq<int>,
    fs: Seq<FrameModel>,
    nb: int,
    n: int,
) -> ChanModel
    decreases nb,
{
    if nb <= 0 {
        s0
    } else {
        chan_step_next_s(
            run_state(s0, comb, fs, nb - 1, n),
            comb.subrange((nb - 1) * n, nb * n),
            fs[nb - 1],
            n,
        )
    }
}

/// The output block of the combined stream's block `j`.
pub open spec fn block_out(
    s0: ChanModel,
    comb: Seq<int>,
    fs: Seq<FrameModel>,
    j: int,
    n: int,
) -> Seq<int> {
    chan_step_out_s(run_state(s0, comb, fs, j, n), comb.subrange(j * n, (j + 1) * n), fs[j], n)
}

/// The concatenated outputs of the first `nb` blocks.
pub open spec fn outs_concat(
    s0: ChanModel,
    comb: Seq<int>,
    fs: Seq<FrameModel>,
    nb: int,
    n: int,
) -> Seq<int>
    decreases nb,
{
    if nb <= 0 {
        Seq::empty()
    } else {
        outs_concat(s0, comb, fs, nb - 1, n) + block_out(s0, comb, fs, nb - 1, n)
    }
}

/// Everything one call emits for one channel, in order: the unemitted rest
/// of the previously processed block, then every newly processed block.
/// The call's output row is this stream cut to the row's length; what is
/// left over stays in the carry.
pub open spec fn emitted_s(
    s0: ChanModel,
    stash0: Seq<int>,
    pending: int,
    comb: Seq<int>,
    fs: Seq<FrameModel>,
    nb: int,
    n: int,
) -> Seq<int> {
    stash0.subrange(pending, stash0.len() as int) + outs_concat(s0, comb, fs, nb, n)
}

/// The concatenated outputs of `nb` blocks hold `nb * n` samples.
pub proof fn lemma_outs_len(s0: ChanModel, comb: Seq<int>, fs: Seq<FrameModel>, nb: int, n: int)
    requires
        0 <= n,
        0 <= nb,
    ensures
        outs_concat(s0, comb, fs, nb, n).len() == nb * n,
    decreases nb,
{
    if nb > 0 {
        lemma_outs_len(s0, comb, fs, nb - 1, n);
        assert((nb - 1) * n + n == nb * n) by (nonlinear_arith);
    } else {
        assert(nb * n == 0) by (nonlinear_arith)
            requires
                nb == 0,
        ;
    }
}

/// Cutting the concatenated outputs at a block boundary gives the
/// concatenated outputs of the earlier blocks.
pub proof fn lemma_outs_prefix(
    s0: ChanModel,
    comb: Seq<int>,
    fs: Seq<FrameModel>,
    nb: int,
    j: int,
    n: int,
)
    requires
        0 <= n,
        0 <= j <= nb,
    ensures
        outs_concat(s0, comb, fs, nb, n).take(j * n) == outs_concat(s0, comb, fs, j, n),
    decreases nb,
{
    lemma_outs_len(s0, comb, fs, nb, n);
    lemma_outs_len(s0, comb, fs, j, n);
    if j == nb {
        assert(outs_concat(s0, comb, fs, nb, n).take(j * n) =~= outs_concat(s0, comb, fs, j, n));
    } else {
        lemma_outs_prefix(s0, comb, fs, nb - 1, j, n);
        lemma_outs_len(s0, comb, fs, nb - 1, n);
        assert(j * n <= (nb - 1) * n) by (nonlinear_arith)
            requires
                0 <= n,
                j <= nb - 1,
        ;
        assert(outs_concat(s0, comb, fs, nb, n).take(j * n) =~= outs_concat(
            s0,
            comb,
            fs,
            nb - 1,
            n,
        ).take(j * n));
    }
}

/// Indexing into the concatenated outputs picks out of one block.
pub proof fn lemma_outs_index(
    s0: ChanModel,
    comb: Seq<int>,
    fs: Seq<FrameModel>,
    nb: int,
    j: int,
    i: int,
    n: int,
)
    requires
        1 <= n,
        0 <= j < nb,
        0 <= i < n,
    ensures
        outs_concat(s0, comb, fs, nb, n).len() == nb * n,
        j * n + i < nb * n,
        outs_concat(s0, comb, fs, nb, n)[j * n + i] == block_out(s0, comb, fs, j, n)[i],
{
    lemma_outs_len(s0, comb, fs, nb, n);
    lemma_outs_len(s0, comb, fs, j, n);
    lemma_outs_prefix(s0, comb, fs, nb, j + 1, n);
    assert((j + 1) * n == j * n + n) by (nonlinear_arith);
    assert((j + 1) * n <= nb * n) by (nonlinear_arith)
        requires
            0 <= n,
            j + 1 <= nb,
    ;
    let pre = outs_concat(s0, comb, fs, nb, n).take((j + 1) * n);
    assert(pre[j * n + i] == outs_concat(s0, comb, fs, nb, n)[j * n + i]);
    assert(pre == outs_concat(s0, comb, fs, j, n) + block_out(s0, comb, fs, j, n));
}


/// Copy `len` samples from `src` at `src_off` into `dst` at `dst_off`,
/// leaving the rest of `dst` unchanged.
fn copy_span(dst: &mut Vec<i64>, dst_off: usize, src: &Vec<i64>, src_off: usize, len: usize)
    requires
        dst_off + len <= old(dst)@.len(),
        src_off + len <= src@.len(),
    ensures
        final(dst)@.len() == old(dst)@.len(),
        forall|j: int|
            dst_off <= j < dst_off + len ==> #[trigger] final(dst)@[j] == src@[src_off + (j
                - dst_off)],
        forall|j: int|
            0 <= j < final(dst)@.len() && !(dst_off <= j < dst_off + len)
                ==> #[trigger] final(dst)@[j] == old(dst)@[j],
{
    let dst_len = dst.len();
    let src_len = src.len();
    let mut i: usize = 0;
    while i < len
        invariant
            dst_off + len <= dst_len,
            src_off + len <= src_len,
            dst_len == dst@.len(),
            src_len == src@.len(),
            dst@.len() == old(dst)@.len(),
            i <= len,
            forall|j: int|
                dst_off <= j < dst_off + i ==> #[trigger] dst@[j] == src@[src_off + (j - dst_off)],
            forall|j: int|
                0 <= j < dst@.len() && !(dst_off <= j < dst_off + i) ==> #[trigger] dst@[j] == old(dst)@[j],
        decreases len - i,
    {
        let v = src[src_off + i];
        dst[dst_off + i] = v;
        i = i + 1;
    }
}

/// Swap `len` samples of `row` at `row_off` with `len` samples of `stash`
/// at `stash_off`.
fn swap_span(row: &mut Vec<i64>, row_off: usize, stash: &mut Vec<i64>, stash_off: usize, len: usize)
    requires
        row_off + len <= old(row)@.len(),
        stash_off + len <= old(stash)@.len(),
    ensures
        final(row)@.len() == old(row)@.len(),
        final(stash)@.len() == old(stash)@.len(),
        forall|j: int|
            row_off <= j < row_off + len ==> #[trigger] final(row)@[j] == old(stash)@[stash_off + (
            j - row_off)],
        forall|j: int|
            stash_off <= j < stash_off + len ==> #[trigger] final(stash)@[j] == old(row)@[row_off
                + (j - stash_off)],
        forall|j: int|
            0 <= j < final(row)@.len() && !(row_off <= j < row_off + len) ==> #[trigger] final(row)@[j] == old(row)@[j],
        forall|j: int|
            0 <= j < final(stash)@.len() && !(stash_off <= j < stash_off + len)
                ==> #[trigger] final(stash)@[j] == old(stash)@[j],
{
    let row_len = row.len();
    let stash_len = stash.len();
    let mut i: usize = 0;
    while i < len
        invariant
            row_off + len <= row_len,
            stash_off + len <= stash_len,
            row_len == row@.len(),
            stash_len == stash@.len(),
            row@.len() == old(row)@.len(),
            stash@.len() == old(stash)@.len(),
            i <= len,
            forall|j: int|
                row_off <= j < row_off + i ==> #[trigger] row@[j] == old(stash)@[stash_off + (j
                    - row_off)],
            forall|j: int|
                stash_off <= j < stash_off + i ==> #[trigger] stash@[j] == old(row)@[row_off + (j
                    - stash_off)],
            forall|j: int|
                0 <= j < row@.len() && !(row_off <= j < row_off + i) ==> #[trigger] row@[j] == old(row)@[j],
            forall|j: int|
                0 <= j < stash@.len() && !(stash_off <= j < stash_off + i) ==> #[trigger] stash@[j]
                    == old(stash)@[j],
        decreases len - i,
    {
        let a = row[row_off + i];
        let b = stash[stash_off + i];
        row[row_off + i] = b;
        stash[stash_off + i] = a;
        i = i + 1;
    }
}

/// Indexing the left part of a concatenation.
proof fn lemma_cat_left(a: Seq<int>, b: Seq<int>, i: int)
    requires
        0 <= i < a.len(),
    ensures
        (a + b)[i] == a[i],
{
}

/// Indexing the right part of a concatenation.
proof fn lemma_cat_right(a: Seq<int>, b: Seq<int>, i: int)
    requires
        a.len() <= i < a.len() + b.len(),
    ensures
        (a + b)[i] == b[i - a.len()],
{
}

/// The scratch block equals the combined stream's next chunk.
proof fn lemma_chunk(
    comb: Seq<int>,
    stash0: Seq<int>,
    raw: Seq<int>,
    tempv: Seq<int>,
    pending: int,
    cursor: int,
    done: int,
    n: int,
)
    requires
        comb == stash0.take(pending) + raw,
        0 <= pending <= stash0.len(),
        0 <= cursor,
        1 <= n,
        pending + cursor == done * n,
        cursor + n <= raw.len(),
        tempv.len() == n,
        forall|k: int| 0 <= k < n ==> #[trigger] tempv[k] == raw[cursor + k],
    ensures
        tempv == comb.subrange(done * n, done * n + n),
{
    assert forall|k: int| 0 <= k < n implies tempv[k] == comb[done * n + k] by {
        lemma_cat_right(stash0.take(pending), raw, done * n + k);
    }
    assert(tempv =~= comb.subrange(done * n, done * n + n));
}

/// Emitting the carried block extends the emitted prefix of the stream by
/// one block.
proof fn lemma_emit_grow(
    s0: ChanModel,
    comb: Seq<int>,
    fs: Seq<FrameModel>,
    stash0: Seq<int>,
    rowseq: Seq<int>,
    rowprev: Seq<int>,
    stashseq: Seq<int>,
    nbg: int,
    done: int,
    cursor: int,
    pending: int,
    n: int,
)
    requires
        1 <= n,
        0 <= pending < n,
        stash0.len() == n,
        0 <= done < nbg,
        done == 0 ==> pending == 0 && cursor == 0,
        done > 0 ==> pending + cursor == done * n,
        rowseq.len() == rowprev.len(),
        cursor + n <= rowseq.len(),
        rowprev.take(cursor) == emitted_s(s0, stash0, pending, comb, fs, nbg, n).take(cursor),
        forall|t: int| 0 <= t < cursor ==> #[trigger] rowseq[t] == rowprev[t],
        forall|k: int| 0 <= k < n ==> #[trigger] rowseq[cursor + k] == stashseq[k],
        stashseq == (if done == 0 {
            stash0
        } else {
            block_out(s0, comb, fs, done - 1, n)
        }),
    ensures
        rowseq.take(cursor + n) == emitted_s(s0, stash0, pending, comb, fs, nbg, n).take(cursor
            + n),
{
    let tail0 = stash0.subrange(pending, n);
    let outs = outs_concat(s0, comb, fs, nbg, n);
    let e = emitted_s(s0, stash0, pending, comb, fs, nbg, n);
    lemma_outs_len(s0, comb, fs, nbg, n);
    assert((done + 1) * n <= nbg * n) by (nonlinear_arith)
        requires
            done + 1 <= nbg,
            0 <= n,
    ;
    assert((done + 1) * n == done * n + n) by (nonlinear_arith);
    assert forall|t: int| 0 <= t < cursor + n implies rowseq[t] == e[t] by {
        if t < cursor {
            assert(rowprev.take(cursor)[t] == e.take(cursor)[t]);
        } else {
            let k = t - cursor;
            assert(rowseq[cursor + k] == stashseq[k]);
            if done == 0 {
                lemma_cat_left(tail0, outs, t);
            } else {
                assert(n <= done * n) by (nonlinear_arith)
                    requires
                        1 <= done,
                        0 <= n,
                ;
                lemma_cat_right(tail0, outs, t);
                lemma_outs_index(s0, comb, fs, nbg, done - 1, k, n);
                assert((done - 1) * n == done * n - n) by (nonlinear_arith);
                assert(t - (n - pending) == (done - 1) * n + k);
            }
        }
    }
    assert(rowseq.take(cursor + n) =~= e.take(cursor + n));
}

/// One channel's share of one call: complete and process the pending
/// partial block, process every further full block in place, then park the
/// trailing remainder in the carry, emitting carried samples in its place.
#[verifier::rlimit(100)]
#[verifier::spinoff_prover]
fn run_channel(
    proc: &mut SingleChannelProcessor,
    stash: &mut Vec<i64>,
    row: &mut Vec<i64>,
    frames: &Vec<ParamsBlock>,
    pending: usize,
    temp: &mut Vec<i64>,
)
    requires
        old(proc).wf(),
        old(stash)@.len() == old(proc).n,
        pending < old(proc).n,
        forall|i: int| 0 <= i < pending ==> -IN_LIMIT <= #[trigger] old(stash)@[i] <= IN_LIMIT,
        forall|i: int|
            0 <= i < old(stash)@.len() ==> -OUT_LIMIT <= #[trigger] old(stash)@[i] <= OUT_LIMIT,
        forall|i: int|
            0 <= i < old(row)@.len() ==> -IN_LIMIT <= #[trigger] old(row)@[i] <= IN_LIMIT,
        old(temp)@.len() == old(proc).n,
        frames@.len() == (pending + old(row)@.len()) as int / (old(proc).n as int),
        forall|j: int|
            0 <= j < frames@.len() ==> (#[trigger] frames@[j]).wf() && frames@[j].block_size == old(proc).n,
    ensures
        final(proc).wf(),
        final(proc).n == old(proc).n,
        final(temp)@.len() == old(proc).n,
        final(row)@.len() == old(row)@.len(),
        final(stash)@.len() == old(proc).n,
        ({
            let n = old(proc).n as int;
            let s = old(row)@.len() as int;
            let comb = ints(old(stash)@).take(pending as int) + ints(old(row)@);
            let fs = frame_models(frames@);
            let nb = (pending + s) / n;
            let e = emitted_s(old(proc).model(), ints(old(stash)@), pending as int, comb, fs, nb, n);
            &&& final(proc).model() == run_state(old(proc).model(), comb, fs, nb, n)
            &&& ints(final(row)@) == e.take(s)
            &&& ints(final(stash)@) == comb.subrange(nb * n, comb.len() as int) + e.skip(s)
        }),
        forall|i: int|
            0 <= i < (pending + old(row)@.len()) as int % (old(proc).n as int) ==> -IN_LIMIT
                <= #[trigger] final(stash)@[i] <= IN_LIMIT,
        forall|i: int|
            0 <= i < final(stash)@.len() ==> -OUT_LIMIT <= #[trigger] final(stash)@[i] <= OUT_LIMIT,
        forall|i: int|
            0 <= i < final(row)@.len() ==> -OUT_LIMIT <= #[trigger] final(row)@[i] <= OUT_LIMIT,
{
    let n = proc.n;
    let s = row.len();
    let nframes = frames.len();
    let ghost s0 = old(proc).model();
    let ghost stash0 = ints(old(stash)@);
    let ghost raw = ints(old(row)@);
    let ghost comb = stash0.take(pending as int) + raw;
    let ghost fs = frame_models(frames@);
    let ghost nbg = (pending + s) as int / (n as int);
    let ghost outs = outs_concat(s0, comb, fs, nbg, n as int);
    let ghost tail0 = stash0.subrange(pending as int, n as int);
    let ghost e = emitted_s(s0, stash0, pending as int, comb, fs, nbg, n as int);
    proof {
        lemma_outs_len(s0, comb, fs, nbg, n as int);
        vstd::arithmetic::div_mod::lemma_div_pos_is_pos((pending + s) as int, n as int);
        assert(e == tail0 + outs);
        assert(comb.len() == pending + s);
    }

    let mut cursor: usize = 0;
    let mut done: usize = 0;

    // Complete the pending partial block, if the new samples suffice.
    if pending > 0 && s >= n - pending {
        let take = n - pending;
        copy_span(temp, 0, &*stash, 0, pending);
        copy_span(temp, pending, &*row, 0, take);
        copy_span(row, 0, &*stash, pending, take);
        proof {
            assert(nbg >= 1) by {
                vstd::arithmetic::div_mod::lemma_div_is_ordered(
                    n as int,
                    (pending + s) as int,
                    n as int,
                );
                vstd::arithmetic::div_mod::lemma_div_by_self(n as int);
            }
            assert(ints(temp@) =~= comb.subrange(0, n as int)) by {
                assert forall|j: int| 0 <= j < n implies ints(temp@)[j] == comb[j] by {
                    if j < pending {
                        lemma_cat_left(stash0.take(pending as int), raw, j);
                    } else {
                        lemma_cat_right(stash0.take(pending as int), raw, j);
                    }
                }
            }
            assert(fs[0] == frame_model(frames@[0]));
            assert(ints(row@).take(take as int) =~= e.take(take as int)) by {
                assert forall|t: int| 0 <= t < take implies ints(row@)[t] == e[t] by {
                    lemma_cat_left(tail0, outs, t);
                }
            }
        }
        let status = proc.process_block(&*temp, stash, &frames[0]);
        proof {
            assert(status == ProcessStatus::Normal);
            assert(comb.subrange(0 * (n as int), (0 + 1) * (n as int)) == comb.subrange(
                0,
                n as int,
            ));
            assert(ints(stash@) == block_out(s0, comb, fs, 0, n as int));
            assert(proc.model() == run_state(s0, comb, fs, 1, n as int));
            assert(1 * (n as int) == n as int) by (nonlinear_arith);
        }
        cursor = take;
        done = 1;
    }

    // Process every further full block in place: the raw block moves to
    // scratch and the carried processed block is emitted in its place.
    while cursor <= s && s - cursor >= n
        invariant
            old(proc).wf(),
            proc.wf(),
            n == proc.n,
            n == old(proc).n,
            1 <= n,
            s == row@.len(),
            s == old(row)@.len(),
            stash@.len() == n,
            temp@.len() == n,
            pending < n,
            s0 == old(proc).model(),
            stash0 == ints(old(stash)@),
            stash0.len() == n,
            raw == ints(old(row)@),
            raw.len() == s,
            comb == stash0.take(pending as int) + raw,
            comb.len() == pending + s,
            fs == frame_models(frames@),
            nbg == (pending + s) as int / (n as int),
            0 <= nbg,
            outs == outs_concat(s0, comb, fs, nbg, n as int),
            outs.len() == nbg * (n as int),
            tail0 == stash0.subrange(pending as int, n as int),
            e == tail0 + outs,
            frames@.len() == nframes,
            nbg == nframes,
            forall|j: int|
                0 <= j < frames@.len() ==> (#[trigger] frames@[j]).wf() && frames@[j].block_size
                    == n,
            cursor <= s,
            done > 0 ==> pending + cursor == done * n,
            done == 0 ==> cursor == 0,
            done == 0 ==> pending == 0 || pending + s < n,
            done <= nbg,
            proc.model() == run_state(s0, comb, fs, done as int, n as int),
            ints(stash@) == (if done == 0 {
                stash0
            } else {
                block_out(s0, comb, fs, done as int - 1, n as int)
            }),
            forall|j: int|
                0 <= j < stash@.len() ==> -OUT_LIMIT <= #[trigger] stash@[j] <= OUT_LIMIT,
            ints(row@).take(cursor as int) == e.take(cursor as int),
            forall|j: int| 0 <= j < cursor ==> -OUT_LIMIT <= #[trigger] row@[j] <= OUT_LIMIT,
            forall|j: int| cursor <= j < row@.len() ==> #[trigger] row@[j] == old(row)@[j],
            forall|j: int|
                cursor <= j < row@.len() ==> -IN_LIMIT <= #[trigger] row@[j] <= IN_LIMIT,
        decreases s - cursor,
    {
        proof {
            if done == 0 {
                if pending > 0 {
                    assert(pending + s < n);
                    assert(false);
                }
                assert(done as int * (n as int) == 0) by (nonlinear_arith)
                    requires
                        done as int == 0,
                ;
            }
            assert(pending + cursor == done * n);
            assert((done as int + 1) * (n as int) == done as int * (n as int) + n as int)
                by (nonlinear_arith);
            assert(done < nbg) by {
                vstd::arithmetic::div_mod::lemma_div_is_ordered(
                    (done as int + 1) * (n as int),
                    (pending + s) as int,
                    n as int,
                );
                vstd::arithmetic::div_mod::lemma_div_by_multiple(done as int + 1, n as int);
            }
        }
        copy_span(temp, 0, &*row, cursor, n);
        let ghost row_before = row@;
        copy_span(row, cursor, &*stash, 0, n);
        proof {
            let dn = done as int * (n as int);
            assert(forall|k: int| 0 <= k < n ==> #[trigger] ints(temp@)[k] == raw[cursor as int + k]);
            lemma_chunk(comb, stash0, raw, ints(temp@), pending as int, cursor as int, done as int, n as int);
            assert(fs[done as int] == frame_model(frames@[done as int]));
            assert(forall|t: int| 0 <= t < cursor ==> #[trigger] ints(row@)[t] == ints(row_before)[t]);
            assert(forall|k: int| 0 <= k < n ==> #[trigger] ints(row@)[cursor as int + k] == ints(stash@)[k]);
            lemma_emit_grow(
                s0,
                comb,
                fs,
                stash0,
                ints(row@),
                ints(row_before),
                ints(stash@),
                nbg,
                done as int,
                cursor as int,
                pending as int,
                n as int,
            );
        }
        let status = proc.process_block(&*temp, stash, &frames[done]);
        proof {
            assert(status == ProcessStatus::Normal);
            assert(proc.model() == run_state(s0, comb, fs, done as int + 1, n as int));
            assert(ints(stash@) == block_out(s0, comb, fs, done as int, n as int));
        }
        cursor = cursor + n;
        done = done + 1;
    }

    // Park the trailing remainder in the carry, emitting carried samples
    // in its place.
    let rem = s - cursor;
    let off = if done > 0 {
        0
    } else {
        pending
    };
    proof {
        if done > 0 {
            vstd::arithmetic::div_mod::lemma_fundamental_div_mod_converse(
                (pending + s) as int,
                n as int,
                done as int,
                rem as int,
            );
        } else {
            assert(pending + s < n);
            vstd::arithmetic::div_mod::lemma_basic_div((pending + s) as int, n as int);
            vstd::arithmetic::div_mod::lemma_small_mod((pending + s) as nat, n as nat);
            assert(nbg * (n as int) == 0) by (nonlinear_arith)
                requires
                    nbg == 0,
            ;
        }
        assert(done == nbg);
        assert(outs.len() == nbg * (n as int));
    }
    let ghost np = ((pending + s) as int) % (n as int);
    let ghost row_mid = row@;
    let ghost stash_mid = stash@;
    swap_span(row, cursor, stash, off, rem);
    proof {
        let nI = n as int;
        let sI = s as int;
        let cI = cursor as int;
        let remI = rem as int;
        let offI = off as int;
        let park = comb.subrange(nbg * nI, comb.len() as int);
        assert(park.len() == np);
        assert(e.len() == (nI - pending) + nbg * nI);
        assert(ints(row@) =~= e.take(sI)) by {
            assert forall|t: int| 0 <= t < sI implies ints(row@)[t] == e[t] by {
                if t < cI {
                    assert(ints(row@)[t] == ints(row_mid)[t]);
                    assert(ints(row_mid).take(cI)[t] == e.take(cI)[t]);
                } else {
                    let k = t - cI;
                    assert(row@[t] == stash_mid[offI + k]);
                    if done == 0 {
                        lemma_cat_left(tail0, outs, t);
                    } else {
                        lemma_cat_right(tail0, outs, t);
                        lemma_outs_index(s0, comb, fs, nbg, done as int - 1, k, nI);
                        assert((done as int - 1) * nI == done as int * nI - nI)
                            by (nonlinear_arith);
                        assert(t - (nI - pending) == (done as int - 1) * nI + k);
                    }
                }
            }
        }
        assert(ints(stash@) =~= park + e.skip(sI)) by {
            assert forall|j: int| 0 <= j < nI implies ints(stash@)[j] == (park + e.skip(sI))[j] by {
                if j < np {
                    lemma_cat_left(park, e.skip(sI), j);
                    assert(park[j] == comb[nbg * nI + j]);
                    if done > 0 {
                        assert(nbg * nI + j == pending + (cI + j));
                        lemma_cat_right(stash0.take(pending as int), raw, nbg * nI + j);
                        assert(stash@[j] == row_mid[cI + j]);
                        assert(row_mid[cI + j] == raw[cI + j]);
                    } else {
                        if j < pending {
                            lemma_cat_left(stash0.take(pending as int), raw, j);
                            assert(stash@[j] == stash_mid[j]);
                        } else {
                            lemma_cat_right(stash0.take(pending as int), raw, j);
                            assert(stash@[j] == row_mid[cI + (j - pending)]);
                            assert(row_mid[cI + (j - pending)] == raw[j - pending]);
                        }
                    }
                } else {
                    lemma_cat_right(park, e.skip(sI), j);
                    assert((park + e.skip(sI))[j] == e[sI + (j - np)]);
                    if done > 0 {
                        lemma_cat_right(tail0, outs, sI + (j - np));
                        lemma_outs_index(s0, comb, fs, nbg, done as int - 1, j, nI);
                        assert((done as int - 1) * nI == done as int * nI - nI)
                            by (nonlinear_arith);
                        assert(sI + (j - np) - (nI - pending) == (done as int - 1) * nI + j);
                        assert(ints(stash@)[j] == stash_mid[j]);
                    } else {
                        lemma_cat_left(tail0, outs, sI + (j - np));
                        assert(sI + (j - np) == j - pending);
                        assert(e[j - pending] == tail0[j - pending]);
                        assert(tail0[j - pending] == stash0[j]);
                        assert(ints(stash@)[j] == stash_mid[j]);
                    }
                }
            }
        }
        assert forall|i: int| 0 <= i < np implies -IN_LIMIT <= #[trigger] stash@[i] <= IN_LIMIT by {
            if done > 0 {
                assert(stash@[i] == row_mid[cI + i]);
                assert(row_mid[cI + i] == old(row)@[cI + i]);
            } else {
                if i < pending {
                    assert(stash@[i] == stash_mid[i]);
                    assert(ints(stash_mid)[i] == stash0[i]);
                } else {
                    assert(stash@[i] == row_mid[cI + (i - pending)]);
                    assert(row_mid[cI + (i - pending)] == old(row)@[i - pending]);
                }
            }
        }
        assert forall|i: int| 0 <= i < nI implies -OUT_LIMIT <= #[trigger] stash@[i]
            <= OUT_LIMIT by {
            if offI <= i < offI + remI {
                assert(stash@[i] == row_mid[cI + (i - offI)]);
                assert(row_mid[cI + (i - offI)] == old(row)@[cI + (i - offI)]);
            } else {
                assert(stash@[i] == stash_mid[i]);
                if done == 0 {
                    assert(ints(stash_mid)[i] == stash0[i]);
                }
            }
        }
        assert forall|t: int| 0 <= t < sI implies -OUT_LIMIT <= #[trigger] row@[t] <= OUT_LIMIT by {
            if t < cI {
                assert(row@[t] == row_mid[t]);
            } else {
                assert(row@[t] == stash_mid[offI + (t - cI)]);
            }
        }
    }
}


/// The buffer framer with one processor and one carry per channel.
pub struct DCTCrush {
    /// The fixed block size.
    pub block_size: usize,
    /// The configured channel count; channels beyond it pass through.
    pub channels: usize,
    /// One processor per configured channel.
    pub processors: Vec<SingleChannelProcessor>,
    /// One carry block per configured channel: the raw pending samples,
    /// then the not-yet-emitted processed samples.
    pub stash: Vec<Vec<i64>>,
    /// How many raw samples are pending at the front of each carry.
    pub pending: usize,
    /// Scratch for assembling one block.
    pub temp: Vec<i64>,
}

impl DCTCrush {
    /// Structural soundness: per-channel processors and carries match the
    /// configuration; carried samples are within range.
    pub open spec fn wf(&self) -> bool {
        &&& 1 <= self.block_size <= 128
        &&& 1 <= self.channels
        &&& self.processors@.len() == self.channels
        &&& forall|c: int|
            0 <= c < self.processors@.len() ==> (#[trigger] self.processors@[c]).wf()
                && self.processors@[c].n == self.block_size
        &&& self.stash@.len() == self.channels
        &&& forall|c: int|
            0 <= c < self.stash@.len() ==> (#[trigger] self.stash@[c])@.len() == self.block_size
        &&& self.pending < self.block_size
        &&& forall|c: int, i: int|
            0 <= c < self.stash@.len() && 0 <= i < self.pending ==> -IN_LIMIT
                <= #[trigger] self.stash@[c]@[i] <= IN_LIMIT
        &&& forall|c: int, i: int|
            0 <= c < self.stash@.len() && 0 <= i < self.stash@[c]@.len() ==> -OUT_LIMIT
                <= #[trigger] self.stash@[c]@[i] <= OUT_LIMIT
        &&& self.temp@.len() == self.block_size
    }

    /// Build a framer for a block size and channel count, with silent
    /// processors and empty carries.
    pub fn new(block_size: usize, channels: usize) -> (r: DCTCrush)
        requires
            1 <= block_size <= 128,
            1 <= channels,
        ensures
            r.wf(),
            r.block_size == block_size,
            r.channels == channels,
            r.pending == 0,
            forall|c: int|
                0 <= c < r.processors@.len() ==> (#[trigger] r.processors@[c]).model()
                    == crate::channel::zero_model(block_size as int),
            forall|c: int, i: int|
                0 <= c < r.stash@.len() && 0 <= i < r.stash@[c]@.len() ==> #[trigger] r.stash@[c]@[i]
                    == 0,
    {
        let mut processors: Vec<SingleChannelProcessor> = Vec::new();
        let mut stash: Vec<Vec<i64>> = Vec::new();
        let mut c: usize = 0;
        while c < channels
            invariant
                1 <= block_size <= 128,
                c <= channels,
                processors@.len() == c,
                stash@.len() == c,
                forall|k: int|
                    0 <= k < c ==> (#[trigger] processors@[k]).wf() && processors@[k].n
                        == block_size,
                forall|k: int|
                    0 <= k < c ==> (#[trigger] processors@[k]).model()
                        == crate::channel::zero_model(block_size as int),
                forall|k: int| 0 <= k < c ==> (#[trigger] stash@[k])@.len() == block_size,
                forall|k: int, i: int|
                    0 <= k < c && 0 <= i < stash@[k]@.len() ==> #[trigger] stash@[k]@[i] == 0,
            decreases channels - c,
        {
            let p = SingleChannelProcessor::new(block_size);
            proof {
                assert(p.model().hist =~= crate::fixed::zeros(block_size as int));
                assert(p.model().tail =~= crate::fixed::zeros(block_size as int));
                assert(p.model().delay =~= crate::fixed::zeros(block_size as int));
            }
            processors.push(p);
            stash.push(make_zeros(block_size));
            c = c + 1;
        }
        DCTCrush {
            block_size,
            channels,
            processors,
            stash,
            pending: 0,
            temp: make_zeros(block_size),
        }
    }

    /// Process one host buffer in place.
    ///
    /// Every channel row must have the same length.  When at least as many
    /// channels as configured are present, the caller supplies exactly one
    /// well-formed parameter frame per block that the call will complete,
    /// and every processed channel's samples within input range; channels
    /// beyond the configured count pass through untouched.
    pub fn process(&mut self, buffer: &mut Vec<Vec<i64>>, frames: &Vec<ParamsBlock>) -> (r:
        ProcessStatus)
        requires
            old(self).wf(),
            forall|c: int|
                0 <= c < old(buffer)@.len() ==> (#[trigger] old(buffer)@[c])@.len() == old(buffer)@[0]@.len(),
            old(buffer)@.len() >= old(self).channels ==> {
                &&& old(self).pending + old(buffer)@[0]@.len() <= usize::MAX
                &&& forall|c: int, i: int|
                    0 <= c < old(self).channels && 0 <= i < old(buffer)@[c]@.len() ==> -IN_LIMIT
                        <= #[trigger] old(buffer)@[c]@[i] <= IN_LIMIT
                &&& frames@.len() == (old(self).pending + old(buffer)@[0]@.len()) as int / (old(self).block_size as int)
                &&& forall|j: int|
                    0 <= j < frames@.len() ==> (#[trigger] frames@[j]).wf()
                        && frames@[j].block_size == old(self).block_size
            },
        ensures
            final(self).block_size == old(self).block_size,
            final(self).channels == old(self).channels,
            final(buffer)@.len() == old(buffer)@.len(),
            old(buffer)@.len() == 0 ==> {
                &&& r == ProcessStatus::Error(ProcessError::NoChannels)
                &&& *final(self) == *old(self)
                &&& final(buffer)@ == old(buffer)@
            },
            0 < old(buffer)@.len() < old(self).channels ==> {
                &&& r == ProcessStatus::Error(ProcessError::TooFewChannels)
                &&& *final(self) == *old(self)
                &&& final(buffer)@ == old(buffer)@
            },
            old(buffer)@.len() >= old(self).channels ==> ({
                let n = old(self).block_size as int;
                let s = old(buffer)@[0]@.len() as int;
                let fs = frame_models(frames@);
                let nb = (old(self).pending + s) / n;
                &&& r == ProcessStatus::Normal
                &&& final(self).wf()
                &&& final(self).pending == (old(self).pending + s) % n
                &&& forall|c: int|
                    0 <= c < old(self).channels ==> ({
                        let comb = ints(old(self).stash@[c]@).take(old(self).pending as int) + ints(
                            old(buffer)@[c]@,
                        );
                        let e = emitted_s(
                            old(self).processors@[c].model(),
                            ints(old(self).stash@[c]@),
                            old(self).pending as int,
                            comb,
                            fs,
                            nb,
                            n,
                        );
                        &&& (#[trigger] final(self).processors@[c]).model() == run_state(
                            old(self).processors@[c].model(),
                            comb,
                            fs,
                            nb,
                            n,
                        )
                        &&& ints(final(buffer)@[c]@) == e.take(s)
                        &&& final(buffer)@[c]@.len() == s
                        &&& ints(final(self).stash@[c]@) == comb.subrange(
                            nb * n,
                            comb.len() as int,
                        ) + e.skip(s)
                    })
                &&& forall|c: int|
                    old(self).channels <= c < final(buffer)@.len() ==> #[trigger] final(buffer)@[c] == old(buffer)@[c]
            }),
    {
        let channels = self.channels;
        let n = self.block_size;
        if buffer.len() == 0 {
            return ProcessStatus::Error(ProcessError::NoChannels);
        }
        if buffer.len() < channels {
            return ProcessStatus::Error(ProcessError::TooFewChannels);
        }
        let s = buffer[0].len();
        let pend = self.pending;
        let ghost fs = frame_models(frames@);
        let ghost nb = (pend + s) as int / (n as int);
        let mut c: usize = 0;
        while c < channels
            invariant
                old(self).wf(),
                channels == old(self).channels,
                n == old(self).block_size,
                pend == old(self).pending,
                fs == frame_models(frames@),
                nb == (pend + s) as int / (n as int),
                pend + s <= usize::MAX,
                frames@.len() == nb,
                forall|j: int|
                    0 <= j < frames@.len() ==> (#[trigger] frames@[j]).wf()
                        && frames@[j].block_size == n,
                self.block_size == n,
                self.channels == channels,
                self.pending == pend,
                self.temp@.len() == n,
                self.processors@.len() == channels,
                self.stash@.len() == channels,
                buffer@.len() == old(buffer)@.len(),
                buffer@.len() >= channels,
                forall|k: int|
                    0 <= k < old(buffer)@.len() ==> (#[trigger] old(buffer)@[k])@.len() == s,
                forall|k: int, i: int|
                    0 <= k < channels && 0 <= i < old(buffer)@[k]@.len() ==> -IN_LIMIT
                        <= #[trigger] old(buffer)@[k]@[i] <= IN_LIMIT,
                c <= channels,
                forall|k: int|
                    c <= k < channels ==> #[trigger] self.processors@[k] == old(self).processors@[k],
                forall|k: int| c <= k < channels ==> #[trigger] self.stash@[k] == old(self).stash@[k],
                forall|k: int| c <= k < buffer@.len() ==> #[trigger] buffer@[k] == old(buffer)@[k],
                forall|k: int|
                    0 <= k < c ==> ({
                        let comb = ints(old(self).stash@[k]@).take(pend as int) + ints(
                            old(buffer)@[k]@,
                        );
                        let e = emitted_s(
                            old(self).processors@[k].model(),
                            ints(old(self).stash@[k]@),
                            pend as int,
                            comb,
                            fs,
                            nb,
                            n as int,
                        );
                        &&& (#[trigger] self.processors@[k]).wf()
                        &&& self.processors@[k].n == n
                        &&& self.processors@[k].model() == run_state(
                            old(self).processors@[k].model(),
                            comb,
                            fs,
                            nb,
                            n as int,
                        )
                        &&& ints(buffer@[k]@) == e.take(s as int)
                        &&& buffer@[k]@.len() == s
                        &&& self.stash@[k]@.len() == n
                        &&& ints(self.stash@[k]@) == comb.subrange(
                            nb * (n as int),
                            comb.len() as int,
                        ) + e.skip(s as int)
                    }),
                forall|k: int|
                    0 <= k < c ==> (#[trigger] self.stash@[k])@.len() == n,
                forall|k: int, i: int|
                    0 <= k < c && 0 <= i < (pend + s) as int % (n as int) ==> -IN_LIMIT
                        <= #[trigger] self.stash@[k]@[i] <= IN_LIMIT,
                forall|k: int, i: int|
                    0 <= k < c && 0 <= i < self.stash@[k]@.len() ==> -OUT_LIMIT
                        <= #[trigger] self.stash@[k]@[i] <= OUT_LIMIT,
            decreases channels - c,
        {
            let ghost procs_before = self.processors@;
            let ghost stash_before = self.stash@;
            let ghost buf_before = buffer@;
            let mut p = self.processors.remove(c);
            let mut st = self.stash.remove(c);
            let mut rowv = buffer.remove(c);
            proof {
                assert(p == old(self).processors@[c as int]);
                assert(st == old(self).stash@[c as int]);
                assert(rowv == old(buffer)@[c as int]);
                assert(rowv@.len() == s);
            }
            run_channel(&mut p, &mut st, &mut rowv, frames, pend, &mut self.temp);
            buffer.insert(c, rowv);
            self.stash.insert(c, st);
            self.processors.insert(c, p);
            proof {
                assert(self.processors@ =~= procs_before.update(c as int, p));
                assert(self.stash@ =~= stash_before.update(c as int, st));
                assert(buffer@ =~= buf_before.update(c as int, rowv));
            }
            c = c + 1;
        }
        self.pending = (pend + s) % n;
        ProcessStatus::Normal
    }
}

} // verus!
