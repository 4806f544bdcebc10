use vstd::prelude::*;
use vstd::arithmetic::power2::*;
use vstd::arithmetic::div_mod::*;
use vstd::arithmetic::mul::*;

use crate::bitstream::{
    lemma_rice_rest_len, lemma_urice_seq_mono, lemma_urice_seq_props, lemma_urice_seq_snoc,
    rice_ok, rice_rest, rice_val, u32_as_i32, ulong_ok, ulong_rest, ulong_val, urice_seq_ok,
    urice_seq_rest, urice_seq_vals, zigzag_dec, BitReader, i32_of_u32,
};
use crate::buffer::{sum_i32, tdiv, coffset_spec, ChannelBuffer, MeanAccumulator, tdiv_i64};
use crate::error::ShnError;
use crate::header::ShnHeader;

verus! {

// ─── Command ids ─────────────────────────────────────────────────────────────
pub const FN_DIFF0: i32 = 0;
pub const FN_DIFF1: i32 = 1;
pub const FN_DIFF2: i32 = 2;
pub const FN_DIFF3: i32 = 3;
pub const FN_QUIT: i32 = 4;
pub const FN_BLOCKSIZE: i32 = 5;
pub const FN_BITSHIFT: i32 = 6;
pub const FN_QLPC: i32 = 7;
pub const FN_ZERO: i32 = 8;
pub const FN_VERBATIM: i32 = 9;

// ─── Wrapping 32-bit sample arithmetic ──────────────────────────────────────
//
// All sample arithmetic is 32-bit signed with wrap semantics; QLPC prediction
// uses a 64-bit accumulator (also wrapping) before its final shift.

/// The 32-bit signed value congruent to `x` modulo `pow2(32)`.
pub open spec fn crop32(x: int) -> i32 {
    vstd::wrapping::i32_specs::signed_crop(x)
}

/// The 64-bit signed value congruent to `x` modulo `pow2(64)`.
pub open spec fn crop64(x: int) -> i64 {
    vstd::wrapping::i64_specs::signed_crop(x)
}

/// The history depth a decoder keeps per channel: the three samples the
/// fixed predictors need, or the maximum LPC order when that is deeper.
pub open spec fn nwrap_of(maxnlpc: nat) -> nat {
    if maxnlpc > 3 {
        maxnlpc
    } else {
        3
    }
}

/// The values of `n` signed Rice codes with parameter `k`: unsigned Rice
/// codes with `k + 1` mantissa bits, zig-zag unfolded.
pub open spec fn sres_vals(s: Seq<bool>, k: nat, n: nat) -> Seq<int> {
    urice_seq_vals(s, (k + 1) as nat, n).map_values(|v: int| zigzag_dec(v as nat))
}

/// The fixed polynomial prediction of the next sample from the samples so
/// far (at least three: the history seeds them), as an exact integer.
pub open spec fn fixed_pred(ext: Seq<i32>, order: nat, coffset: int) -> int {
    let l = ext.len() as int;
    if order == 0 {
        coffset
    } else if order == 1 {
        ext[l - 1] as int
    } else if order == 2 {
        2 * ext[l - 1] - ext[l - 2]
    } else {
        3 * ext[l - 1] - 3 * ext[l - 2] + ext[l - 3]
    }
}

/// The history extended by `n` fixed-prediction samples: each new sample is
/// its residual plus its prediction, wrapped to 32 bits.
pub open spec fn fixed_ext(hist: Seq<i32>, res: Seq<int>, order: nat, coffset: int, n: nat) -> Seq<
    i32,
>
    decreases n,
{
    if n == 0 {
        hist
    } else {
        let p = fixed_ext(hist, res, order, coffset, (n - 1) as nat);
        p.push(crop32(res[n - 1] + fixed_pred(p, order, coffset)))
    }
}

/// The exact weighted sum of the last `j` coefficients against the samples
/// so far: coefficient 0 weights the most recent sample.
pub open spec fn qlpc_sum(ext: Seq<i32>, c: Seq<int>, j: nat) -> int
    decreases j,
{
    if j == 0 {
        0
    } else {
        qlpc_sum(ext, c, (j - 1) as nat) + c[j - 1] * ext[ext.len() - j]
    }
}

/// The history extended by `n` QLPC samples: each new sample is its residual
/// plus the coefficient sum, accumulated in wrapping 64-bit arithmetic and
/// right-shifted by the fixed quantization exponent 5, wrapped to 32 bits.
pub open spec fn qlpc_ext(hist: Seq<i32>, res: Seq<int>, c: Seq<int>, n: nat) -> Seq<i32>
    decreases n,
{
    if n == 0 {
        hist
    } else {
        let p = qlpc_ext(hist, res, c, (n - 1) as nat);
        p.push(crop32(res[n - 1] + crop64(qlpc_sum(p, c, c.len())) / 32))
    }
}

/// A block after the global bit shift: every sample multiplied by
/// `pow2(bitshift)`, wrapped to 32 bits.  A shift of zero leaves the block
/// untouched.
pub open spec fn shifted_blk(blk: Seq<i32>, bitshift: nat) -> Seq<i32> {
    if bitshift == 0 {
        blk
    } else {
        blk.map_values(|v: i32| crop32(v * pow2(bitshift)))
    }
}

/// The per-block mean pushed into the mean window: the block sum with the
/// bit shift cancelled (an arithmetic right shift), divided by the block
/// size with rounding.
pub open spec fn block_mean(sblk: Seq<i32>, bitshift: nat, bs: nat) -> int {
    tdiv(sum_i32(sblk) / (pow2(bitshift) as int) + bs / 2, bs as int)
}

/// The reads of a fixed-prediction block decode from bit stream `s`: an
/// energy field of at most 24 (the reader's mantissa cap), then `bs` signed
/// residuals.
pub open spec fn fixed_read_ok(s: Seq<bool>, bs: nat) -> bool {
    &&& rice_ok(s, 3)
    &&& rice_val(s, 3) < 0x1_0000_0000
    &&& rice_val(s, 3) <= 24
    &&& urice_seq_ok(rice_rest(s, 3), (rice_val(s, 3) + 1) as nat, bs)
}

/// The reads and checks of a QLPC block decode from bit stream `s`: energy,
/// LPC order (bounded by `maxnlpc` and 128), `order` coefficients, then
/// `bs` signed residuals.  On success: energy,
/// order, coefficients, residuals, and the remaining bits.
pub open spec fn qlpc_check(s: Seq<bool>, maxnlpc: nat, bs: nat) -> Result<
    (nat, nat, Seq<int>, Seq<int>, Seq<bool>),
    ShnError,
> {
    if !(rice_ok(s, 3) && rice_val(s, 3) < 0x1_0000_0000 && rice_val(s, 3) <= 24) {
        Err(ShnError::Io)
    } else {
        let energy = rice_val(s, 3) as nat;
        let r1 = rice_rest(s, 3);
        if !(rice_ok(r1, 2) && rice_val(r1, 2) < 0x1_0000_0000) {
            Err(ShnError::Io)
        } else {
            let order = rice_val(r1, 2);
            let r2 = rice_rest(r1, 2);
            if order > maxnlpc || order > 128 {
                Err(ShnError::InvalidLpcOrder(i32_of_u32(order as u32)))
            } else if !urice_seq_ok(r2, 3, order as nat) {
                Err(ShnError::Io)
            } else {
                let coeffs = sres_vals(r2, 2, order as nat);
                let r3 = urice_seq_rest(r2, 3, order as nat);
                if !urice_seq_ok(r3, (energy + 1) as nat, bs) {
                    Err(ShnError::Io)
                } else {
                    Ok(
                        (
                            energy,
                            order as nat,
                            coeffs,
                            sres_vals(r3, energy, bs),
                            urice_seq_rest(r3, (energy + 1) as nat, bs),
                        ),
                    )
                }
            }
        }
    }
}

/// After a block completes for a channel, that channel's history positions
/// -3, -2, -1 hold exactly the last three samples just produced for it
/// (whenever the block is at least three samples long, which every valid
/// stream guarantees).
pub proof fn lemma_history_tracks_block(pre: Decoder, post: Decoder, raw: Seq<i32>)
    requires
        post_block(pre, post, raw),
        pre.blocksize >= 3,
    ensures
        post.buffers@[pre.current_channel as int].at(-1) == post.buffers@[
            pre.current_channel as int].block()[pre.blocksize - 1],
        post.buffers@[pre.current_channel as int].at(-2) == post.buffers@[
            pre.current_channel as int].block()[pre.blocksize - 2],
        post.buffers@[pre.current_channel as int].at(-3) == post.buffers@[
            pre.current_channel as int].block()[pre.blocksize - 3],
{
}

// ─── The round machine, as a specification ──────────────────────────────────
//
// The abstract decoder state the command loop works on: the remaining bits,
// the pending command, and the audio state.  The stream constants (channel
// count, maxnlpc, nmean, history depth) ride alongside as parameters.

pub struct DecState {
    pub bits: Seq<bool>,
    pub pending: Option<i32>,
    pub blocksize: nat,
    pub bitshift: nat,
    /// The channel decoded next.
    pub cur: nat,
    /// Per channel: `nwrap` history samples, then the block.
    pub bufs: Seq<Seq<i32>>,
    /// Per channel: the mean window's slots.
    pub means: Seq<Seq<i32>>,
    /// Per channel: the mean window's write index.
    pub midx: Seq<nat>,
}

/// The abstract state of a decoder.
pub open spec fn abs_state(d: Decoder) -> DecState {
    DecState {
        bits: d.reader.bits(),
        pending: d.pending_cmd,
        blocksize: d.blocksize as nat,
        bitshift: d.bitshift as nat,
        cur: d.current_channel as nat,
        bufs: d.buffers@.map_values(|b: ChannelBuffer| b.data@),
        means: d.means@.map_values(|m: MeanAccumulator| m.values@),
        midx: d.means@.map_values(|m: MeanAccumulator| m.index as nat),
    }
}

/// Finishing a block whose raw samples are `raw` for the current channel:
/// the shifted block is stored, its last `nw` samples wrap into the
/// history, the rounded mean enters the window, and the cursor advances.
pub open spec fn finish_st(st: DecState, raw: Seq<i32>, nmean: nat, nw: nat, ch_n: nat) -> DecState {
    let ch = st.cur as int;
    let sblk = shifted_blk(raw, st.bitshift);
    let hist = st.bufs[ch].subrange(0, nw as int);
    let newdata = (hist + sblk).subrange(st.blocksize as int, (st.blocksize + nw) as int) + sblk;
    let m = block_mean(sblk, st.bitshift, st.blocksize) as i32;
    DecState {
        cur: (((st.cur + 1) as int) % (ch_n as int)) as nat,
        bufs: st.bufs.update(ch, newdata),
        means: if nmean == 0 {
            st.means
        } else {
            st.means.update(ch, st.means[ch].update(st.midx[ch] as int, m))
        },
        midx: if nmean == 0 {
            st.midx
        } else {
            st.midx.update(ch, ((((st.midx[ch] + 1) as int) % (nmean as int)) as nat))
        },
        ..st
    }
}

/// The effect of one command with id `cmd`, already read, on state `st`:
/// `Ok(None)` is QUIT, otherwise the new state and whether a block was
/// produced.  Unknown ids, out-of-range payloads and unreadable fields give
/// the errors of the error taxonomy.
#[verifier::opaque]
pub open spec fn spec_cmd(cmd: int, st: DecState, ch_n: nat, maxnlpc: nat, nmean: nat, nw: nat) -> Result<
    Option<(DecState, bool)>,
    ShnError,
> {
    if cmd == 4 {
        Ok(None)
    } else if 0 <= cmd <= 3 {
        if !fixed_read_ok(st.bits, st.blocksize) {
            Err(ShnError::Io)
        } else {
            let energy = rice_val(st.bits, 3) as nat;
            let res = sres_vals(rice_rest(st.bits, 3), energy, st.blocksize);
            let hist = st.bufs[st.cur as int].subrange(0, nw as int);
            let coff = coffset_spec(st.means[st.cur as int]);
            let raw = fixed_ext(hist, res, cmd as nat, coff, st.blocksize).skip(nw as int);
            let st2 = DecState {
                bits: urice_seq_rest(rice_rest(st.bits, 3), (energy + 1) as nat, st.blocksize),
                ..st
            };
            Ok(Some((finish_st(st2, raw, nmean, nw, ch_n), true)))
        }
    } else if cmd == 7 {
        match qlpc_check(st.bits, maxnlpc, st.blocksize) {
            Err(e) => Err(e),
            Ok(t) => {
                let hist = st.bufs[st.cur as int].subrange(0, nw as int);
                let raw = qlpc_ext(hist, t.3, t.2, st.blocksize).skip(nw as int);
                Ok(Some((finish_st(DecState { bits: t.4, ..st }, raw, nmean, nw, ch_n), true)))
            },
        }
    } else if cmd == 8 {
        let raw = Seq::new(st.blocksize, |i: int| 0i32);
        let stz = DecState {
            bufs: st.bufs.update(
                st.cur as int,
                st.bufs[st.cur as int].subrange(0, nw as int) + raw,
            ),
            ..st
        };
        Ok(Some((finish_st(stz, raw, nmean, nw, ch_n), true)))
    } else if cmd == 5 {
        if !ulong_ok(st.bits) {
            Err(ShnError::Io)
        } else {
            let v = i32_of_u32(ulong_val(st.bits) as u32);
            if v <= 0 || v > 65536 {
                Err(ShnError::InvalidBlockSize(v))
            } else {
                Ok(
                    Some(
                        (
                            DecState {
                                bits: ulong_rest(st.bits),
                                blocksize: v as nat,
                                bufs: Seq::new(
                                    st.bufs.len(),
                                    |j: int|
                                        st.bufs[j].subrange(0, nw as int) + Seq::new(
                                            v as nat,
                                            |i: int| 0i32,
                                        ),
                                ),
                                ..st
                            },
                            false,
                        ),
                    ),
                )
            }
        }
    } else if cmd == 6 {
        if !(rice_ok(st.bits, 2) && rice_val(st.bits, 2) < 0x1_0000_0000) {
            Err(ShnError::Io)
        } else {
            Ok(
                Some(
                    (
                        DecState {
                            bits: rice_rest(st.bits, 2),
                            bitshift: rice_val(st.bits, 2) as nat,
                            ..st
                        },
                        false,
                    ),
                ),
            )
        }
    } else if cmd == 9 {
        if !(rice_ok(st.bits, 5) && rice_val(st.bits, 5) < 0x1_0000_0000) {
            Err(ShnError::Io)
        } else {
            let nb = rice_val(st.bits, 5) as nat;
            let r1 = rice_rest(st.bits, 5);
            if !urice_seq_ok(r1, 8, nb) {
                Err(ShnError::Io)
            } else {
                Ok(Some((DecState { bits: urice_seq_rest(r1, 8, nb), ..st }, false)))
            }
        }
    } else {
        Err(ShnError::InvalidCommand(cmd as i32))
    }
}

/// One step of the round: take the pending command if one is held, else
/// read a command id from the bits, then apply it.
pub open spec fn spec_step(st: DecState, ch_n: nat, maxnlpc: nat, nmean: nat, nw: nat) -> Result<
    Option<(DecState, bool)>,
    ShnError,
> {
    match st.pending {
        Some(c) => spec_cmd(c as int, DecState { pending: None, ..st }, ch_n, maxnlpc, nmean, nw),
        None => {
            if !(rice_ok(st.bits, 2) && rice_val(st.bits, 2) < 0x1_0000_0000) {
                Err(ShnError::Io)
            } else {
                spec_cmd(
                    i32_of_u32(rice_val(st.bits, 2) as u32) as int,
                    DecState { bits: rice_rest(st.bits, 2), ..st },
                    ch_n,
                    maxnlpc,
                    nmean,
                    nw,
                )
            }
        },
    }
}

/// Every step consumes a bit of progress: either bits, or the pending slot.
#[verifier::rlimit(100)]
proof fn lemma_step_shrinks(st: DecState, ch_n: nat, maxnlpc: nat, nmean: nat, nw: nat)
    ensures
        match spec_step(st, ch_n, maxnlpc, nmean, nw) {
            Ok(opt) => match opt {
                Some(t) => t.0.bits.len() + (if t.0.pending is Some {
                    1int
                } else {
                    0int
                }) < st.bits.len() + (if st.pending is Some {
                    1int
                } else {
                    0int
                }),
                None => true,
            },
            Err(_) => true,
        },
{
    reveal(spec_cmd);
    let (cmd, s, base) = match st.pending {
        Some(c) => (c as int, st.bits, DecState { pending: None, ..st }),
        None => {
            if rice_ok(st.bits, 2) && rice_val(st.bits, 2) < 0x1_0000_0000 {
                lemma_rice_rest_len(st.bits, 2);
            }
            (
                i32_of_u32(rice_val(st.bits, 2) as u32) as int,
                rice_rest(st.bits, 2),
                DecState { bits: rice_rest(st.bits, 2), ..st },
            )
        },
    };
    if st.pending is None && !(rice_ok(st.bits, 2) && rice_val(st.bits, 2) < 0x1_0000_0000) {
        return ;
    }
    if 0 <= cmd <= 3 {
        if fixed_read_ok(s, st.blocksize) {
            lemma_rice_rest_len(s, 3);
            crate::bitstream::lemma_rice_val_nonneg(s, 3);
            lemma_urice_seq_props(rice_rest(s, 3), (rice_val(s, 3) + 1) as nat, st.blocksize);
        }
    } else if cmd == 7 {
        if rice_ok(s, 3) && rice_val(s, 3) < 0x1_0000_0000 && rice_val(s, 3) <= 24 {
            lemma_rice_rest_len(s, 3);
            let energy = rice_val(s, 3) as nat;
            let r1 = rice_rest(s, 3);
            if rice_ok(r1, 2) && rice_val(r1, 2) < 0x1_0000_0000 {
                lemma_rice_rest_len(r1, 2);
                let order = rice_val(r1, 2);
                let r2 = rice_rest(r1, 2);
                if order <= maxnlpc && order <= 128 && urice_seq_ok(r2, 3, order as nat) {
                    lemma_urice_seq_props(r2, 3, order as nat);
                    let r3 = urice_seq_rest(r2, 3, order as nat);
                    if urice_seq_ok(r3, (energy + 1) as nat, st.blocksize) {
                        lemma_urice_seq_props(r3, (energy + 1) as nat, st.blocksize);
                    }
                }
            }
        }
    } else if cmd == 5 {
        if ulong_ok(s) {
            lemma_rice_rest_len(s, 2);
            lemma_rice_rest_len(rice_rest(s, 2), rice_val(s, 2) as nat);
        }
    } else if cmd == 6 {
        if rice_ok(s, 2) && rice_val(s, 2) < 0x1_0000_0000 {
            lemma_rice_rest_len(s, 2);
        }
    } else if cmd == 9 {
        if rice_ok(s, 5) && rice_val(s, 5) < 0x1_0000_0000 {
            lemma_rice_rest_len(s, 5);
            let nb = rice_val(s, 5) as nat;
            let r1 = rice_rest(s, 5);
            if urice_seq_ok(r1, 8, nb) {
                lemma_urice_seq_props(r1, 8, nb);
            }
        }
    }
}

/// The round: commands are applied until `need` blocks have been produced.
/// `Ok(None)` reports a QUIT before the round completed; errors propagate.
pub open spec fn spec_round(st: DecState, need: nat, ch_n: nat, maxnlpc: nat, nmean: nat, nw: nat) -> Result<
    Option<DecState>,
    ShnError,
>
    decreases st.bits.len() + (if st.pending is Some {
        1int
    } else {
        0int
    }),
    via spec_round_dec
{
    if need == 0 {
        Ok(Some(st))
    } else {
        match spec_step(st, ch_n, maxnlpc, nmean, nw) {
            Err(e) => Err(e),
            Ok(None) => Ok(None),
            Ok(Some(t)) => spec_round(
                t.0,
                if t.1 {
                    (need - 1) as nat
                } else {
                    need
                },
                ch_n,
                maxnlpc,
                nmean,
                nw,
            ),
        }
    }
}

#[via_fn]
proof fn spec_round_dec(st: DecState, need: nat, ch_n: nat, maxnlpc: nat, nmean: nat, nw: nat) {
    if need > 0 {
        lemma_step_shrinks(st, ch_n, maxnlpc, nmean, nw);
    }
}

/// Finishing a block in the decoder is finishing it in the round machine:
/// `post_block` between two decoder states is `finish_st` between their
/// abstractions.
#[verifier::rlimit(100)]
proof fn lemma_post_block_abs(pre: Decoder, post: Decoder, raw: Seq<i32>)
    requires
        pre.wf(),
        pre.channels > 0,
        pre.pending_cmd is None,
        post_block(pre, post, raw),
    ensures
        abs_state(post) == finish_st(
            DecState { bits: post.reader.bits(), ..abs_state(pre) },
            raw,
            pre.nmean as nat,
            nwrap_of(pre.maxnlpc as nat),
            pre.channels as nat,
        ),
{
    let nw = nwrap_of(pre.maxnlpc as nat);
    let ch = pre.current_channel as int;
    let st2 = DecState { bits: post.reader.bits(), ..abs_state(pre) };
    let f = finish_st(st2, raw, pre.nmean as nat, nw, pre.channels as nat);
    let sblk = shifted_blk(raw, pre.bitshift as nat);
    assert(st2.bufs[ch] == pre.buffers@[ch].data@);
    assert(st2.bufs[ch].subrange(0, nw as int) =~= pre.buffers@[ch].history());
    assert(post.buffers@[ch].data@ =~= post.buffers@[ch].history() + post.buffers@[ch].block());
    assert(post.buffers@[ch].data@ == f.bufs[ch]);
    assert(abs_state(post).bufs =~= f.bufs);
    if pre.nmean > 0 {
        assert(st2.means[ch] == pre.means@[ch].values@);
        assert(st2.midx[ch] == pre.means@[ch].index as nat);
        assert(abs_state(post).means =~= f.means);
        assert(abs_state(post).midx =~= f.midx);
    } else {
        assert(abs_state(post).means =~= f.means);
        assert(abs_state(post).midx =~= f.midx);
    }
    assert(abs_state(post).cur == f.cur);
    assert(abs_state(post) == f);
}

/// The round machine's outcomes for the commands that read or skip fields
/// in place, and for every failing read: spelled out once, so the command
/// loop can match its branches against them.
#[verifier::rlimit(100)]
proof fn lemma_spec_cmd_unfold(cmd: int, st: DecState, ch_n: nat, mx: nat, nm: nat, nw: nat)
    ensures
        cmd == 4 ==> spec_cmd(cmd, st, ch_n, mx, nm, nw) == Ok::<
            Option<(DecState, bool)>,
            ShnError,
        >(None),
        0 <= cmd <= 3 && !fixed_read_ok(st.bits, st.blocksize) ==> spec_cmd(
            cmd,
            st,
            ch_n,
            mx,
            nm,
            nw,
        ) == Err::<Option<(DecState, bool)>, ShnError>(ShnError::Io),
        cmd == 7 && qlpc_check(st.bits, mx, st.blocksize) is Err ==> spec_cmd(
            cmd,
            st,
            ch_n,
            mx,
            nm,
            nw,
        ) == Err::<Option<(DecState, bool)>, ShnError>(qlpc_check(st.bits, mx, st.blocksize)->Err_0),
        cmd == 5 && !ulong_ok(st.bits) ==> spec_cmd(cmd, st, ch_n, mx, nm, nw) == Err::<
            Option<(DecState, bool)>,
            ShnError,
        >(ShnError::Io),
        cmd == 5 && ulong_ok(st.bits) && (i32_of_u32(ulong_val(st.bits) as u32) <= 0
            || i32_of_u32(ulong_val(st.bits) as u32) > 65536) ==> spec_cmd(
            cmd,
            st,
            ch_n,
            mx,
            nm,
            nw,
        ) == Err::<Option<(DecState, bool)>, ShnError>(
            ShnError::InvalidBlockSize(i32_of_u32(ulong_val(st.bits) as u32)),
        ),
        cmd == 6 && !(rice_ok(st.bits, 2) && rice_val(st.bits, 2) < 0x1_0000_0000) ==> spec_cmd(
            cmd,
            st,
            ch_n,
            mx,
            nm,
            nw,
        ) == Err::<Option<(DecState, bool)>, ShnError>(ShnError::Io),
        cmd == 6 && rice_ok(st.bits, 2) && rice_val(st.bits, 2) < 0x1_0000_0000 ==> spec_cmd(
            cmd,
            st,
            ch_n,
            mx,
            nm,
            nw,
        ) == Ok::<Option<(DecState, bool)>, ShnError>(
            Some(
                (
                    DecState {
                        bits: rice_rest(st.bits, 2),
                        bitshift: rice_val(st.bits, 2) as nat,
                        ..st
                    },
                    false,
                ),
            ),
        ),
        cmd == 9 && !(rice_ok(st.bits, 5) && rice_val(st.bits, 5) < 0x1_0000_0000) ==> spec_cmd(
            cmd,
            st,
            ch_n,
            mx,
            nm,
            nw,
        ) == Err::<Option<(DecState, bool)>, ShnError>(ShnError::Io),
        cmd == 9 && rice_ok(st.bits, 5) && rice_val(st.bits, 5) < 0x1_0000_0000
            && !urice_seq_ok(rice_rest(st.bits, 5), 8, rice_val(st.bits, 5) as nat) ==> spec_cmd(
            cmd,
            st,
            ch_n,
            mx,
            nm,
            nw,
        ) == Err::<Option<(DecState, bool)>, ShnError>(ShnError::Io),
        cmd == 9 && rice_ok(st.bits, 5) && rice_val(st.bits, 5) < 0x1_0000_0000 && urice_seq_ok(
            rice_rest(st.bits, 5),
            8,
            rice_val(st.bits, 5) as nat,
        ) ==> spec_cmd(cmd, st, ch_n, mx, nm, nw) == Ok::<Option<(DecState, bool)>, ShnError>(
            Some(
                (
                    DecState {
                        bits: urice_seq_rest(
                            rice_rest(st.bits, 5),
                            8,
                            rice_val(st.bits, 5) as nat,
                        ),
                        ..st
                    },
                    false,
                ),
            ),
        ),
        !(0 <= cmd <= 9) ==> spec_cmd(cmd, st, ch_n, mx, nm, nw) == Err::<
            Option<(DecState, bool)>,
            ShnError,
        >(ShnError::InvalidCommand(cmd as i32)),
{
    reveal(spec_cmd);
}

/// A fixed-prediction block in the decoder is the DIFF command of the round
/// machine.
#[verifier::rlimit(100)]
proof fn lemma_step_fixed(hpre: Decoder, post: Decoder, cmd: int)
    requires
        hpre.wf(),
        hpre.channels > 0,
        hpre.pending_cmd is None,
        0 <= cmd <= 3,
        fixed_read_ok(hpre.reader.bits(), hpre.blocksize as nat),
        post.reader.bits() == urice_seq_rest(
            rice_rest(hpre.reader.bits(), 3),
            ((rice_val(hpre.reader.bits(), 3) as nat) + 1) as nat,
            hpre.blocksize as nat,
        ),
        post_block(
            hpre,
            post,
            fixed_ext(
                hpre.buffers@[hpre.current_channel as int].history(),
                sres_vals(
                    rice_rest(hpre.reader.bits(), 3),
                    rice_val(hpre.reader.bits(), 3) as nat,
                    hpre.blocksize as nat,
                ),
                cmd as nat,
                coffset_spec(hpre.means@[hpre.current_channel as int].values@),
                hpre.blocksize as nat,
            ).skip(nwrap_of(hpre.maxnlpc as nat) as int),
        ),
    ensures
        spec_cmd(
            cmd,
            abs_state(hpre),
            hpre.channels as nat,
            hpre.maxnlpc as nat,
            hpre.nmean as nat,
            nwrap_of(hpre.maxnlpc as nat),
        ) == Ok::<Option<(DecState, bool)>, ShnError>(Some((abs_state(post), true))),
{
    reveal(spec_cmd);
    let st = abs_state(hpre);
    let nw = nwrap_of(hpre.maxnlpc as nat);
    let hist = st.bufs[st.cur as int].subrange(0, nw as int);
    assert(hist =~= hpre.buffers@[hpre.current_channel as int].history());
    let energy = rice_val(st.bits, 3) as nat;
    let res = sres_vals(rice_rest(st.bits, 3), energy, st.blocksize);
    let raw = fixed_ext(hist, res, cmd as nat, coffset_spec(st.means[st.cur as int]), st.blocksize)
        .skip(nw as int);
    lemma_post_block_abs(hpre, post, raw);
}

/// A QLPC block in the decoder is the QLPC command of the round machine.
#[verifier::rlimit(100)]
proof fn lemma_step_qlpc(hpre: Decoder, post: Decoder)
    requires
        hpre.wf(),
        hpre.channels > 0,
        hpre.pending_cmd is None,
        qlpc_check(hpre.reader.bits(), hpre.maxnlpc as nat, hpre.blocksize as nat) is Ok,
        post.reader.bits() == qlpc_check(
            hpre.reader.bits(),
            hpre.maxnlpc as nat,
            hpre.blocksize as nat,
        )->Ok_0.4,
        post_block(
            hpre,
            post,
            qlpc_ext(
                hpre.buffers@[hpre.current_channel as int].history(),
                qlpc_check(hpre.reader.bits(), hpre.maxnlpc as nat, hpre.blocksize as nat)->Ok_0.3,
                qlpc_check(hpre.reader.bits(), hpre.maxnlpc as nat, hpre.blocksize as nat)->Ok_0.2,
                hpre.blocksize as nat,
            ).skip(nwrap_of(hpre.maxnlpc as nat) as int),
        ),
    ensures
        spec_cmd(
            7,
            abs_state(hpre),
            hpre.channels as nat,
            hpre.maxnlpc as nat,
            hpre.nmean as nat,
            nwrap_of(hpre.maxnlpc as nat),
        ) == Ok::<Option<(DecState, bool)>, ShnError>(Some((abs_state(post), true))),
{
    reveal(spec_cmd);
    let st = abs_state(hpre);
    let nw = nwrap_of(hpre.maxnlpc as nat);
    let t = qlpc_check(st.bits, hpre.maxnlpc as nat, st.blocksize)->Ok_0;
    let hist = st.bufs[st.cur as int].subrange(0, nw as int);
    assert(hist =~= hpre.buffers@[hpre.current_channel as int].history());
    let raw = qlpc_ext(hist, t.3, t.2, st.blocksize).skip(nw as int);
    lemma_post_block_abs(hpre, post, raw);
}

/// A ZERO block in the decoder is the ZERO command of the round machine:
/// `dz` is the state at the command, `dmid` the state with the block
/// zeroed, `post` the state after finishing.
#[verifier::rlimit(100)]
proof fn lemma_step_zero(dz: Decoder, dmid: Decoder, post: Decoder)
    requires
        dz.wf(),
        dmid.wf(),
        dz.channels > 0,
        dz.pending_cmd is None,
        dmid.buffers@.len() == dz.buffers@.len(),
        forall|x: int|
            0 <= x < dz.buffers@.len() && x != dz.current_channel as int ==> dmid.buffers@[x]
                == dz.buffers@[x],
        dmid.buffers@[dz.current_channel as int].blocksize == dz.blocksize,
        dmid.buffers@[dz.current_channel as int].nwrap == dz.buffers@[
            dz.current_channel as int].nwrap,
        dmid.buffers@[dz.current_channel as int].history() == dz.buffers@[
            dz.current_channel as int].history(),
        dmid.buffers@[dz.current_channel as int].block() == Seq::new(
            dz.blocksize as nat,
            |i2: int| 0i32,
        ),
        dmid == (Decoder { buffers: dmid.buffers, ..dz }),
        post.reader == dmid.reader,
        post_block(dmid, post, dmid.buffers@[dz.current_channel as int].block()),
    ensures
        spec_cmd(
            8,
            abs_state(dz),
            dz.channels as nat,
            dz.maxnlpc as nat,
            dz.nmean as nat,
            nwrap_of(dz.maxnlpc as nat),
        ) == Ok::<Option<(DecState, bool)>, ShnError>(Some((abs_state(post), true))),
{
    reveal(spec_cmd);
    let st = abs_state(dz);
    let nw = nwrap_of(dz.maxnlpc as nat);
    let ch = dz.current_channel as int;
    let zraw = Seq::new(st.blocksize, |i2: int| 0i32);
    assert(dmid.buffers@[ch].block() =~= zraw);
    lemma_post_block_abs(dmid, post, dmid.buffers@[ch].block());
    let stz = DecState {
        bufs: st.bufs.update(st.cur as int, st.bufs[st.cur as int].subrange(0, nw as int) + zraw),
        ..st
    };
    assert(st.bufs[st.cur as int].subrange(0, nw as int) =~= dz.buffers@[ch].history());
    assert(dmid.buffers@[ch].data@ =~= dz.buffers@[ch].history() + zraw);
    assert(abs_state(dmid).bufs =~= stz.bufs);
    assert(abs_state(dmid) == stz);
    assert(DecState { bits: post.reader.bits(), ..abs_state(dmid) } == stz);
    assert(abs_state(post) == finish_st(stz, zraw, dz.nmean as nat, nw, dz.channels as nat));
}

/// A BLOCKSIZE command in the decoder is the BLOCKSIZE command of the round
/// machine: `dstart` is the state at the command, `post` the state with the
/// new block size and every buffer resized (history kept, block zeroed).
#[verifier::rlimit(100)]
proof fn lemma_step_blocksize(dstart: Decoder, post: Decoder, new_bs: i32)
    requires
        dstart.wf(),
        dstart.pending_cmd is None,
        ulong_ok(dstart.reader.bits()),
        new_bs == i32_of_u32(ulong_val(dstart.reader.bits()) as u32),
        0 < new_bs <= 65536,
        post.reader.bits() == ulong_rest(dstart.reader.bits()),
        post.blocksize == new_bs as usize,
        post.buffers@.len() == dstart.buffers@.len(),
        forall|x: int|
            0 <= x < post.buffers@.len() ==> (#[trigger] post.buffers@[x]).data@ == dstart.buffers@[
                x].data@.subrange(0, nwrap_of(dstart.maxnlpc as nat) as int) + Seq::new(
                new_bs as nat,
                |i2: int| 0i32,
            ),
        post == (Decoder {
            blocksize: post.blocksize,
            reader: post.reader,
            buffers: post.buffers,
            ..dstart
        }),
    ensures
        spec_cmd(
            5,
            abs_state(dstart),
            dstart.channels as nat,
            dstart.maxnlpc as nat,
            dstart.nmean as nat,
            nwrap_of(dstart.maxnlpc as nat),
        ) == Ok::<Option<(DecState, bool)>, ShnError>(Some((abs_state(post), false))),
{
    reveal(spec_cmd);
    let st = abs_state(dstart);
    let nw = nwrap_of(dstart.maxnlpc as nat);
    let v = i32_of_u32(ulong_val(st.bits) as u32);
    let stn = DecState {
        bits: ulong_rest(st.bits),
        blocksize: v as nat,
        bufs: Seq::new(
            st.bufs.len(),
            |j2: int| st.bufs[j2].subrange(0, nw as int) + Seq::new(v as nat, |i2: int| 0i32),
        ),
        ..st
    };
    assert(abs_state(post).bufs =~= stn.bufs);
    assert(abs_state(post) == stn);
}

/// State for decoding one Shorten stream.
pub struct Decoder {
    pub reader: BitReader,
    pub channels: u32,
    pub blocksize: usize,
    pub maxnlpc: usize,
    pub nmean: usize,
    pub version: u8,
    pub bitshift: u32,
    /// Per-channel sample buffers.
    pub buffers: Vec<ChannelBuffer>,
    /// Per-channel DC offset accumulators.
    pub means: Vec<MeanAccumulator>,
    /// Which channel is decoded next.
    pub current_channel: u32,
    /// Whether the stream has ended (QUIT encountered).
    pub finished: bool,
    /// Interleaved samples of the last decoded block round.
    pub output_buf: Vec<i32>,
    /// Read position within `output_buf`.
    pub output_pos: usize,
    /// The first audio command pre-read by the header parser.
    pub pending_cmd: Option<i32>,
}

/// The channel-local effect of finishing a block whose raw (pre-shift)
/// samples are `raw`: the block is bit-shifted in place, its rounded mean
/// enters the channel's mean window, the last three samples wrap into the
/// history, and the channel cursor advances.  Everything else is unchanged.
pub open spec fn post_block(pre: Decoder, post: Decoder, raw: Seq<i32>) -> bool {
    let ch = pre.current_channel as int;
    let sblk = shifted_blk(raw, pre.bitshift as nat);
    &&& post.buffers@.len() == pre.buffers@.len()
    &&& forall|j: int|
        0 <= j < pre.buffers@.len() && j != ch ==> post.buffers@[j] == pre.buffers@[j]
    &&& post.buffers@[ch].wf()
    &&& post.buffers@[ch].blocksize == pre.blocksize
    &&& post.buffers@[ch].nwrap == pre.buffers@[ch].nwrap
    &&& post.buffers@[ch].block() == sblk
    &&& post.buffers@[ch].history() == (pre.buffers@[ch].history() + sblk).subrange(
        pre.blocksize as int,
        pre.blocksize + pre.buffers@[ch].nwrap,
    )
    &&& (pre.blocksize >= 3 ==> post.buffers@[ch].at(-1) == sblk[pre.blocksize - 1]
        && post.buffers@[ch].at(-2) == sblk[pre.blocksize - 2] && post.buffers@[ch].at(-3)
        == sblk[pre.blocksize - 3])
    &&& post.means@.len() == pre.means@.len()
    &&& forall|j: int| 0 <= j < pre.means@.len() && j != ch ==> post.means@[j] == pre.means@[j]
    &&& (pre.nmean == 0 ==> post.means@[ch] == pre.means@[ch])
    &&& (pre.nmean > 0 ==> post.means@[ch].values@ == pre.means@[ch].values@.update(
        pre.means@[ch].index as int,
        block_mean(sblk, pre.bitshift as nat, pre.blocksize as nat) as i32,
    ) && post.means@[ch].index as int == (pre.means@[ch].index + 1) as int % (pre.nmean as int))
    &&& post.current_channel == (pre.current_channel + 1) as int % (pre.channels as int)
    &&& post.channels == pre.channels
    &&& post.blocksize == pre.blocksize
    &&& post.maxnlpc == pre.maxnlpc
    &&& post.nmean == pre.nmean
    &&& post.version == pre.version
    &&& post.bitshift == pre.bitshift
    &&& post.finished == pre.finished
    &&& post.output_buf == pre.output_buf
    &&& post.output_pos == pre.output_pos
    &&& post.pending_cmd == pre.pending_cmd
}

impl Decoder {
    pub open spec fn wf(self) -> bool {
        &&& self.reader.wf()
        &&& self.buffers@.len() == self.channels
        &&& self.means@.len() == self.channels
        &&& 1 <= self.blocksize <= 65536
        &&& self.maxnlpc <= 128
        &&& forall|i: int|
            0 <= i < self.channels ==> (#[trigger] self.buffers@[i]).wf() && self.buffers@[i].blocksize
                == self.blocksize && self.buffers@[i].nwrap == nwrap_of(self.maxnlpc as nat)
        &&& forall|i: int|
            0 <= i < self.channels ==> (#[trigger] self.means@[i]).wf() && self.means@[i].values@.len()
                == self.nmean
        &&& self.nmean <= 0xFFFF_FFFF
        &&& (self.channels > 0 ==> self.current_channel < self.channels)
        &&& self.output_pos <= self.output_buf@.len()
    }

    /// Set up fresh decoding state from a parsed header: zeroed per-channel
    /// buffers and mean windows, the channel cursor at zero, and the
    /// header's pre-read command pending.
    pub fn new(reader: BitReader, header: &ShnHeader) -> (r: Decoder)
        requires
            reader.wf(),
            1 <= header.blocksize <= 65536,
            header.maxnlpc <= 128,
            header.nmean <= 0xFFFF_FFFF,
        ensures
            r.wf(),
            r.reader == reader,
            r.channels == header.channels,
            r.blocksize == header.blocksize,
            r.maxnlpc == header.maxnlpc,
            r.nmean == header.nmean,
            r.version == header.version,
            r.bitshift == 0,
            r.current_channel == 0,
            !r.finished,
            r.output_buf@.len() == 0,
            r.output_pos == 0,
            r.pending_cmd == header.first_audio_cmd,
            forall|j: int|
                0 <= j < header.channels ==> (#[trigger] r.buffers@[j]).data@ == Seq::new(
                    (nwrap_of(header.maxnlpc as nat) + header.blocksize) as nat,
                    |i: int| 0i32,
                ),
            forall|j: int|
                0 <= j < header.channels ==> (#[trigger] r.means@[j]).values@ == Seq::new(
                    header.nmean as nat,
                    |i: int| 0i32,
                ) && r.means@[j].index == 0,
    {
        let nchan = header.channels as usize;
        let nw: usize = if header.maxnlpc > 3 {
            header.maxnlpc
        } else {
            3
        };
        let mut buffers: Vec<ChannelBuffer> = Vec::new();
        let mut means: Vec<MeanAccumulator> = Vec::new();
        let mut i: usize = 0;
        while i < nchan
            invariant
                i <= nchan,
                header.blocksize <= 65536,
                header.maxnlpc <= 128,
                header.nmean <= 0xFFFF_FFFF,
                buffers@.len() == i,
                means@.len() == i,
                nw == nwrap_of(header.maxnlpc as nat),
                forall|j: int|
                    0 <= j < i ==> (#[trigger] buffers@[j]).wf() && buffers@[j].blocksize
                        == header.blocksize && buffers@[j].nwrap == nw && buffers@[j].data@
                        == Seq::new((nw + header.blocksize) as nat, |x: int| 0i32),
                forall|j: int|
                    0 <= j < i ==> (#[trigger] means@[j]).wf() && means@[j].values@ == Seq::new(
                        header.nmean as nat,
                        |x: int| 0i32,
                    ) && means@[j].index == 0,
            decreases nchan - i,
        {
            buffers.push(ChannelBuffer::with_history(header.blocksize, nw));
            means.push(MeanAccumulator::new(header.nmean));
            i = i + 1;
        }
        proof {
            assert forall|j: int| 0 <= j < nchan implies (#[trigger] means@[j]).values@.len()
                == header.nmean by {
                assert(means@[j].values@ == Seq::new(header.nmean as nat, |x: int| 0i32));
            }
        }
        Decoder {
            reader,
            channels: header.channels,
            blocksize: header.blocksize,
            maxnlpc: header.maxnlpc,
            nmean: header.nmean,
            version: header.version,
            bitshift: 0,
            buffers,
            means,
            current_channel: 0,
            finished: false,
            output_buf: Vec::new(),
            output_pos: 0,
            pending_cmd: header.first_audio_cmd,
        }
    }

    /// Get the next sample from the output buffer, or `None` if exhausted.
    pub fn next_sample(&mut self) -> (r: Option<i32>)
        requires
            old(self).wf(),
        ensures
            final(self).wf(),
            match r {
                Some(s) => {
                    &&& old(self).output_pos < old(self).output_buf@.len()
                    &&& s == old(self).output_buf@[old(self).output_pos as int]
                    &&& final(self).output_pos == old(self).output_pos + 1
                    &&& *final(self) == (Decoder {
                        output_pos: final(self).output_pos,
                        ..*old(self)
                    })
                },
                None => {
                    &&& old(self).output_pos == old(self).output_buf@.len()
                    &&& *final(self) == *old(self)
                },
            },
    {
        if self.output_pos < self.output_buf.len() {
            let s = self.output_buf[self.output_pos];
            self.output_pos = self.output_pos + 1;
            Some(s)
        } else {
            None
        }
    }
}

/// `pow2(k)` as a `u64`.
fn pow2_u64(k: u32) -> (r: u64)
    requires
        k <= 62,
    ensures
        r == pow2(k as nat),
        r >= 1,
{
    let mut p: u64 = 1;
    let mut j: u32 = 0;
    proof {
        lemma2_to64();
    }
    while j < k
        invariant
            j <= k <= 62,
            p == pow2(j as nat),
        decreases k - j,
    {
        proof {
            lemma_pow2_unfold((j + 1) as nat);
            if (j as nat) < 61 {
                lemma_pow2_strictly_increases(j as nat, 61);
            }
            lemma2_to64();
            lemma2_to64_rest();
        }
        p = p * 2;
        j = j + 1;
    }
    proof {
        lemma_pow2_pos(k as nat);
    }
    p
}

/// The 32-bit wrap of a 64-bit value, as sample arithmetic applies it.
fn crop_i64_to_i32(x: i64) -> (r: i32)
    ensures
        r == crop32(x as int),
{
    let m: u64 = if x >= 0 {
        (x as u64) % 0x1_0000_0000
    } else {
        let y: u128 = (-(x as i128)) as u128;
        let neg: u64 = (y % 0x1_0000_0000) as u64;
        proof {
            lemma_mod_division_less_than_divisor(y as int, 0x1_0000_0000);
            lemma_fundamental_div_mod(y as int, 0x1_0000_0000);
            let q = y as int / 0x1_0000_0000;
            if neg == 0 {
                assert(x as int == (-q) * 0x1_0000_0000 + 0) by (nonlinear_arith)
                    requires
                        y as int == 0x1_0000_0000 * q + neg as int,
                        neg == 0,
                        x as int == -(y as int),
                ;
                lemma_fundamental_div_mod_converse(x as int, 0x1_0000_0000, -q, 0);
            } else {
                assert(x as int == (-q - 1) * 0x1_0000_0000 + (0x1_0000_0000 - neg as int))
                    by (nonlinear_arith)
                    requires
                        y as int == 0x1_0000_0000 * q + neg as int,
                        x as int == -(y as int),
                ;
                lemma_fundamental_div_mod_converse(
                    x as int,
                    0x1_0000_0000,
                    -q - 1,
                    0x1_0000_0000 - neg as int,
                );
            }
        }
        if neg == 0 {
            0
        } else {
            0x1_0000_0000 - neg
        }
    };
    proof {
        if x >= 0 {
            lemma_mod_division_less_than_divisor(x as int, 0x1_0000_0000);
        }
        assert(m == (x as int) % 0x1_0000_0000);
    }
    if m >= 0x8000_0000 {
        ((m as i64) - 0x1_0000_0000) as i32
    } else {
        m as i64 as i32
    }
}

/// The 32-bit wrap of a sample shifted left by `k` bits.
fn shl_bits(v: i32, k: u32) -> (r: i32)
    ensures
        r == crop32(v * pow2(k as nat)),
{
    if k >= 32 {
        proof {
            lemma2_to64();
            lemma_pow2_adds(32, (k - 32) as nat);
            lemma_mod_multiples_basic(v * pow2((k - 32) as nat) as int, 0x1_0000_0000);
            assert(v * pow2(k as nat) == (v * pow2((k - 32) as nat)) * 0x1_0000_0000)
                by (nonlinear_arith)
                requires
                    pow2(k as nat) == pow2(32) * pow2((k - 32) as nat),
                    pow2(32) == 0x1_0000_0000,
            ;
        }
        0
    } else {
        let p = pow2_u64(k);
        proof {
            lemma2_to64();
            if (k as nat) < 31 {
                lemma_pow2_strictly_increases(k as nat, 31);
            }
            assert(-0x4000_0000_0000_0000 <= (v as int) * (pow2(k as nat) as int)
                <= 0x4000_0000_0000_0000) by (nonlinear_arith)
                requires
                    -0x8000_0000 <= v as int <= 0x7FFF_FFFF,
                    1 <= pow2(k as nat) <= 0x8000_0000,
            ;
        }
        let prod: i64 = (v as i64) * (p as i64);
        crop_i64_to_i32(prod)
    }
}

/// Floor division of a 64-bit value by `pow2(k)` (an arithmetic right
/// shift).
fn floor_div_pow2(x: i64, k: u32) -> (r: i64)
    ensures
        r == (x as int) / (pow2(k as nat) as int),
        0 <= x ==> 0 <= r <= x,
        x < 0 ==> x <= r <= 0,
{
    proof {
        lemma_pow2_pos(k as nat);
    }
    if k >= 63 {
        proof {
            lemma2_to64();
            lemma2_to64_rest();
            if (k as nat) > 63 {
                lemma_pow2_strictly_increases(63, k as nat);
            }
        }
        if x >= 0 {
            proof {
                lemma_basic_div(x as int, pow2(k as nat) as int);
            }
            0
        } else {
            proof {
                lemma_fundamental_div_mod_converse(
                    x as int,
                    pow2(k as nat) as int,
                    -1,
                    pow2(k as nat) - (-(x as int)),
                );
            }
            -1
        }
    } else {
        let p = pow2_u64(k);
        if x >= 0 {
            let q = (x as u64) / p;
            proof {
                lemma_div_basics(x as int);
                lemma_div_is_ordered_by_denominator(x as int, 1, p as int);
                lemma_div_pos_is_pos(x as int, p as int);
            }
            q as i64
        } else {
            let y: u128 = (-(x as i128)) as u128;
            let q: u128 = y / (p as u128);
            let rem: u128 = y % (p as u128);
            proof {
                lemma_fundamental_div_mod(y as int, p as int);
                lemma_mod_division_less_than_divisor(y as int, p as int);
                lemma_div_basics(y as int);
                lemma_div_is_ordered_by_denominator(y as int, 1, p as int);
                lemma_div_pos_is_pos(y as int, p as int);
                if rem == 0 {
                    assert(x as int == (-(q as int)) * (p as int) + 0) by (nonlinear_arith)
                        requires
                            y as int == (p as int) * (q as int) + (rem as int),
                            rem == 0,
                            x as int == -(y as int),
                    ;
                    lemma_fundamental_div_mod_converse(x as int, p as int, -(q as int), 0);
                } else {
                    assert(x as int == ((-(q as int)) - 1) * (p as int) + ((p as int) - (
                    rem as int))) by (nonlinear_arith)
                        requires
                            y as int == (p as int) * (q as int) + (rem as int),
                            x as int == -(y as int),
                    ;
                    lemma_fundamental_div_mod_converse(
                        x as int,
                        p as int,
                        -(q as int) - 1,
                        p as int - rem as int,
                    );
                    // q is strictly below y: the remainder is positive.
                    assert(q < y) by (nonlinear_arith)
                        requires
                            y as int == (p as int) * (q as int) + (rem as int),
                            rem > 0,
                            p >= 1,
                            q >= 0,
                    ;
                }
            }
            let qq: i128 = if rem == 0 {
                -(q as i128)
            } else {
                -(q as i128) - 1
            };
            qq as i64
        }
    }
}

/// The rounded mean of a block whose sum is bounded by the 32-bit sample
/// range stays within that range.
proof fn lemma_block_mean_range(s: int, n: int)
    requires
        1 <= n,
        -n * 0x8000_0000 <= s <= n * 0x7FFF_FFFF,
    ensures
        -0x8000_0000 <= tdiv(s + n / 2, n) <= 0x7FFF_FFFF,
{
    let h = n / 2;
    lemma_div_pos_is_pos(n, 2);
    lemma_div_is_strictly_smaller(n, 2);
    if n == 1 {
        lemma_div_basics(0);
    }
    assert(0 <= h < n);
    let a = s + h;
    if a >= 0 {
        lemma_div_is_ordered(a, n * 0x7FFF_FFFF + h, n);
        lemma_hoist_over_denominator(h, 0x7FFF_FFFF, n as nat);
        lemma_basic_div(h, n);
        lemma_div_pos_is_pos(a, n);
    } else {
        lemma_div_is_ordered(-a, n * 0x8000_0000, n);
        lemma_div_multiples_vanish(0x8000_0000, n);
        lemma_div_pos_is_pos(-a, n);
    }
}

// ─── Step lemmas for the block-decode loops ──────────────────────────────────

/// Reading one more signed residual extends the decoded run at the end.
proof fn lemma_sres_snoc(s: Seq<bool>, k: nat, i: nat)
    requires
        urice_seq_ok(s, (k + 1) as nat, (i + 1) as nat),
    ensures
        sres_vals(s, k, (i + 1) as nat) == sres_vals(s, k, i as nat).push(
            zigzag_dec(rice_val(urice_seq_rest(s, (k + 1) as nat, i), (k + 1) as nat) as nat),
        ),
{
    lemma_urice_seq_snoc(s, (k + 1) as nat, i);
    assert(sres_vals(s, k, (i + 1) as nat) =~= sres_vals(s, k, i as nat).push(
        zigzag_dec(rice_val(urice_seq_rest(s, (k + 1) as nat, i), (k + 1) as nat) as nat),
    ));
}

/// The extended sample sequence depends only on the residuals it consumes.
proof fn lemma_fixed_ext_prefix(
    hist: Seq<i32>,
    res1: Seq<int>,
    res2: Seq<int>,
    order: nat,
    coff: int,
    n: nat,
)
    requires
        forall|j: int| 0 <= j < n ==> res1[j] == res2[j],
    ensures
        fixed_ext(hist, res1, order, coff, n) == fixed_ext(hist, res2, order, coff, n),
    decreases n,
{
    if n > 0 {
        lemma_fixed_ext_prefix(hist, res1, res2, order, coff, (n - 1) as nat);
    }
}

proof fn lemma_qlpc_ext_prefix(hist: Seq<i32>, res1: Seq<int>, res2: Seq<int>, c: Seq<int>, n: nat)
    requires
        forall|j: int| 0 <= j < n ==> res1[j] == res2[j],
    ensures
        qlpc_ext(hist, res1, c, n) == qlpc_ext(hist, res2, c, n),
    decreases n,
{
    if n > 0 {
        lemma_qlpc_ext_prefix(hist, res1, res2, c, (n - 1) as nat);
    }
}

/// The extended sequence grows one sample per residual and keeps the
/// history it started from.
proof fn lemma_fixed_ext_props(hist: Seq<i32>, res: Seq<int>, order: nat, coff: int, n: nat)
    ensures
        fixed_ext(hist, res, order, coff, n).len() == hist.len() + n,
        forall|j: int|
            0 <= j < hist.len() ==> fixed_ext(hist, res, order, coff, n)[j] == hist[j],
    decreases n,
{
    if n > 0 {
        lemma_fixed_ext_props(hist, res, order, coff, (n - 1) as nat);
    }
}

proof fn lemma_qlpc_ext_props(hist: Seq<i32>, res: Seq<int>, c: Seq<int>, n: nat)
    ensures
        qlpc_ext(hist, res, c, n).len() == hist.len() + n,
        forall|j: int| 0 <= j < hist.len() ==> qlpc_ext(hist, res, c, n)[j] == hist[j],
    decreases n,
{
    if n > 0 {
        lemma_qlpc_ext_props(hist, res, c, (n - 1) as nat);
    }
}

/// The value of a 64-bit crop is congruent to its argument.
proof fn lemma_crop64_val(x: int)
    requires
        -0x1_0000_0000_0000_0000 <= x < 0x1_0000_0000_0000_0000,
    ensures
        crop64(x) == (if x < -0x8000_0000_0000_0000 {
            x + 0x1_0000_0000_0000_0000
        } else if x >= 0x8000_0000_0000_0000 {
            x - 0x1_0000_0000_0000_0000
        } else {
            x
        }),
{
    if x >= 0 {
        lemma_fundamental_div_mod_converse(x, 0x1_0000_0000_0000_0000, 0, x);
    } else {
        lemma_fundamental_div_mod_converse(
            x,
            0x1_0000_0000_0000_0000,
            -1,
            x + 0x1_0000_0000_0000_0000,
        );
    }
}

/// Wrapping 64-bit addition is the crop of the exact sum.
proof fn lemma_crop64_add(a: i64, b: i64)
    ensures
        vstd::wrapping::i64_specs::wrapping_add(a, b) == crop64(a + b),
{
    lemma_crop64_val(a + b);
}

/// Crops of congruent values are equal; a crop is congruent to its argument.
proof fn lemma_crop64_congruent(x: int, y: int)
    requires
        x % 0x1_0000_0000_0000_0000 == y % 0x1_0000_0000_0000_0000,
    ensures
        crop64(x) == crop64(y),
{
}

proof fn lemma_crop64_mod(x: int)
    ensures
        (crop64(x) as int) % 0x1_0000_0000_0000_0000 == x % 0x1_0000_0000_0000_0000,
{
    let range = 0x1_0000_0000_0000_0000;
    let m = x % range;
    lemma_mod_division_less_than_divisor(x, range);
    if m > 0x7FFF_FFFF_FFFF_FFFF {
        lemma_fundamental_div_mod_converse(m - range, range, -1, m);
        lemma_mod_twice(x, range);
    } else {
        lemma_mod_twice(x, range);
    }
}

impl Decoder {
    /// Post-process a decoded channel block: apply the bit shift, push the
    /// block's rounded mean into the channel's window, wrap the last
    /// `nwrap` samples into the history, and advance the channel cursor.
    #[verifier::loop_isolation(false)]
    #[verifier::rlimit(100)]
    #[verifier::spinoff_prover]
    fn finish_channel_block(&mut self, ch: usize)
        requires
            old(self).wf(),
            old(self).channels > 0,
            ch == old(self).current_channel,
        ensures
            final(self).wf(),
            final(self).reader == old(self).reader,
            post_block(*old(self), *final(self), old(self).buffers@[ch as int].block()),
    {
        let ghost pre = *self;
        let ghost raw = self.buffers@[ch as int].block();
        let bs = self.blocksize;
        // Apply the bit shift: the encoder stripped that many low zero bits.
        if self.bitshift > 0 {
            let k = self.bitshift;
            let mut i: usize = 0;
            while i < bs
                invariant
                    i <= bs,
                    self.blocksize == bs,
                    self.wf(),
                    ch < self.channels,
                    self.buffers@.len() == pre.buffers@.len(),
                    forall|j: int|
                        0 <= j < pre.buffers@.len() && j != ch ==> self.buffers@[j]
                            == pre.buffers@[j],
                    self.buffers@[ch as int].blocksize == bs,
                    self.buffers@[ch as int].history() == pre.buffers@[ch as int].history(),
                    forall|j: int|
                        0 <= j < i ==> self.buffers@[ch as int].block()[j] == crop32(
                            raw[j] * pow2(k as nat),
                        ),
                    forall|j: int| i <= j < bs ==> self.buffers@[ch as int].block()[j] == raw[j],
                    *self == (Decoder { buffers: self.buffers, ..pre }),
                decreases bs - i,
            {
                let v = self.buffers[ch].get(i as isize);
                let ghost bpre = self.buffers@[ch as int];
                proof {
                    assert(v == raw[i as int]);
                }
                let w = shl_bits(v, k);
                self.buffers[ch].set(i as isize, w);
                proof {
                    assert(self.buffers@[ch as int].data@ == bpre.data@.update(bpre.nwrap + i as int, w));
                    assert forall|j: int| 0 <= j < i + 1 implies self.buffers@[
                        ch as int].block()[j] == crop32(raw[j] * pow2(k as nat)) by {
                        assert(self.buffers@[ch as int].block()[j] == self.buffers@[
                        ch as int].data@[self.buffers@[ch as int].nwrap + j]);
                        if j < i {
                            assert(bpre.block()[j] == bpre.data@[bpre.nwrap + j]);
                        }
                    }
                    assert forall|j: int| i + 1 <= j < bs implies self.buffers@[
                        ch as int].block()[j] == raw[j] by {
                        assert(self.buffers@[ch as int].block()[j] == self.buffers@[
                        ch as int].data@[self.buffers@[ch as int].nwrap + j]);
                        assert(bpre.block()[j] == bpre.data@[bpre.nwrap + j]);
                    }
                }
                i = i + 1;
            }
            proof {
                assert(self.buffers@[ch as int].block() =~= shifted_blk(raw, pre.bitshift as nat));
            }
        }
        let ghost sblk = shifted_blk(raw, pre.bitshift as nat);
        proof {
            assert(self.buffers@[ch as int].block() == sblk);
        }
        // Push the block's rounded mean (with the shift cancelled).
        if self.nmean > 0 {
            let mut sum: i64 = 0;
            let mut i: usize = 0;
            while i < bs
                invariant
                    i <= bs,
                    sum == sum_i32(sblk.take(i as int)),
                    -(i as int) * 0x8000_0000 <= sum <= (i as int) * 0x7FFF_FFFF,
                decreases bs - i,
            {
                proof {
                    crate::buffer::lemma_sum_i32_take_step(sblk, i as int);
                }
                sum = sum + (self.buffers[ch].get(i as isize) as i64);
                i = i + 1;
            }
            proof {
                assert(sblk.take(bs as int) =~= sblk);
                lemma2_to64();
                lemma_div_basics(sum as int);
            }
            let esum: i64 = if self.bitshift > 0 {
                floor_div_pow2(sum, self.bitshift)
            } else {
                sum
            };
            let half: usize = bs / 2;
            let a: i64 = esum + (half as i64);
            let m64: i64 = tdiv_i64(a, bs as u64);
            proof {
                lemma_block_mean_range(sum_i32(sblk) / (pow2(pre.bitshift as nat) as int), bs as int);
            }
            self.means[ch].push(m64 as i32);
        }
        // Wrap the last three samples into the history region.
        proof {
            assert(self.buffers@[ch as int].data@ =~= pre.buffers@[ch as int].history() + sblk);
        }
        self.buffers[ch].wrap_around();
        // Advance to the next channel, round-robin.
        self.current_channel = (self.current_channel + 1) % self.channels;
        proof {
            assert(final(self).buffers@[ch as int].block() == sblk);
            assert(post_block(pre, *self, raw));
        }
    }

    /// Decode a block with a fixed polynomial predictor (DIFF0 to DIFF3).
    #[verifier::loop_isolation(false)]
    #[verifier::rlimit(60)]
    fn decode_fixed_prediction(&mut self, order: usize) -> (r: Result<(), ShnError>)
        requires
            old(self).wf(),
            old(self).channels > 0,
            order <= 3,
        ensures
            final(self).wf(),
            final(self).channels == old(self).channels,
            final(self).blocksize == old(self).blocksize,
            final(self).maxnlpc == old(self).maxnlpc,
            final(self).nmean == old(self).nmean,
            final(self).version == old(self).version,
            final(self).finished == old(self).finished,
            final(self).pending_cmd == old(self).pending_cmd,
            final(self).output_buf == old(self).output_buf,
            final(self).output_pos == old(self).output_pos,
            final(self).reader.bytes == old(self).reader.bytes,
            final(self).current_channel < final(self).channels,
            match r {
                Ok(()) => {
                    let s = old(self).reader.bits();
                    let energy = rice_val(s, 3) as nat;
                    let res = sres_vals(rice_rest(s, 3), energy, old(self).blocksize as nat);
                    let ch = old(self).current_channel as int;
                    let coff = coffset_spec(old(self).means@[ch].values@);
                    let raw = fixed_ext(
                        old(self).buffers@[ch].history(),
                        res,
                        order as nat,
                        coff,
                        old(self).blocksize as nat,
                    ).skip(nwrap_of(old(self).maxnlpc as nat) as int);
                    &&& fixed_read_ok(s, old(self).blocksize as nat)
                    &&& final(self).reader.bits() == urice_seq_rest(
                        rice_rest(s, 3),
                        (energy + 1) as nat,
                        old(self).blocksize as nat,
                    )
                    &&& final(self).reader.bits().len() < old(self).reader.bits().len()
                    &&& post_block(*old(self), *final(self), raw)
                },
                Err(e) => {
                    &&& e == ShnError::Io
                    &&& !fixed_read_ok(old(self).reader.bits(), old(self).blocksize as nat)
                },
            },
    {
        let ghost pre = *self;
        let ghost s = self.reader.bits();
        let ch = self.current_channel as usize;
        let energy = match self.reader.read_unsigned_rice(3) {
            Ok(v) => v,
            Err(_) => {
                return Err(ShnError::Io);
            },
        };
        if energy > 24 {
            return Err(ShnError::Io);
        }
        let bs = self.blocksize;
        let coffset = self.means[ch].coffset(bs);
        let ghost coff = coffset_spec(pre.means@[ch as int].values@);
        let ghost rres = rice_rest(s, 3);
        let ghost hist = pre.buffers@[ch as int].history();
        let ghost nw = nwrap_of(pre.maxnlpc as nat) as int;
        let mut i: usize = 0;
        while i < bs
            invariant
                i <= bs,
                self.blocksize == bs,
                self.wf(),
                ch < self.channels,
                energy <= 24,
                self.buffers@.len() == pre.buffers@.len(),
                forall|j: int|
                    0 <= j < pre.buffers@.len() && j != ch ==> self.buffers@[j] == pre.buffers@[j],
                self.buffers@[ch as int].blocksize == bs,
                urice_seq_ok(rres, (energy + 1) as nat, i as nat),
                self.reader.bits() == urice_seq_rest(rres, (energy + 1) as nat, i as nat),
                self.reader.bytes == pre.reader.bytes,
                self.buffers@[ch as int].data@.subrange(0, nw + i) == fixed_ext(
                    hist,
                    sres_vals(rres, energy as nat, i as nat),
                    order as nat,
                    coff,
                    i as nat,
                ),
                *self == (Decoder { buffers: self.buffers, reader: self.reader, ..pre }),
            decreases bs - i,
        {
            proof {
                lemma_urice_seq_snoc(rres, (energy + 1) as nat, i as nat);
            }
            let res = match self.reader.read_signed_rice(energy) {
                Ok(v) => v,
                Err(_) => {
                    proof {
                        if urice_seq_ok(rres, (energy + 1) as nat, bs as nat) {
                            lemma_urice_seq_mono(
                                rres,
                                (energy + 1) as nat,
                                (i + 1) as nat,
                                bs as nat,
                            );
                        }
                    }
                    return Err(ShnError::Io);
                },
            };
            let ghost resseq = sres_vals(rres, energy as nat, (i + 1) as nat);
            proof {
                lemma_urice_seq_props(rres, (energy + 1) as nat, i as nat);
                lemma_sres_snoc(rres, energy as nat, i as nat);
                assert(sres_vals(rres, energy as nat, i as nat).len() == i);
                lemma_fixed_ext_prefix(
                    hist,
                    sres_vals(rres, energy as nat, i as nat),
                    resseq,
                    order as nat,
                    coff,
                    i as nat,
                );
            }
            let ii = i as isize;
            let prediction: i64 = if order == 0 {
                coffset as i64
            } else if order == 1 {
                self.buffers[ch].get(ii - 1) as i64
            } else if order == 2 {
                2 * (self.buffers[ch].get(ii - 1) as i64) - (self.buffers[ch].get(ii - 2) as i64)
            } else {
                3 * (self.buffers[ch].get(ii - 1) as i64) - 3 * (self.buffers[ch].get(ii - 2)
                    as i64) + (self.buffers[ch].get(ii - 3) as i64)
            };
            proof {
                let ext = fixed_ext(hist, resseq, order as nat, coff, i as nat);
                assert(ext.len() == nw + i);
                assert forall|j: int| 0 <= j < nw + i implies ext[j]
                    == self.buffers@[ch as int].data@[j] by {
                    assert(self.buffers@[ch as int].data@.subrange(0, nw + i)[j] == ext[j]);
                }
                assert(prediction == fixed_pred(ext, order as nat, coff));
            }
            let sample = crop_i64_to_i32((res as i64) + prediction);
            self.buffers[ch].set(ii, sample);
            proof {
                assert(self.buffers@[ch as int].data@.subrange(0, nw + i + 1) =~= fixed_ext(
                    hist,
                    resseq,
                    order as nat,
                    coff,
                    (i + 1) as nat,
                ));
            }
            i = i + 1;
        }
        proof {
            lemma_urice_seq_props(rres, (energy + 1) as nat, bs as nat);
            lemma_rice_rest_len(s, 3);
            lemma_fixed_ext_props(
                hist,
                sres_vals(rres, energy as nat, bs as nat),
                order as nat,
                coff,
                bs as nat,
            );
            assert(self.buffers@[ch as int].data@.subrange(0, nw + bs) =~= self.buffers@[
                ch as int].data@);
            let raw = fixed_ext(
                hist,
                sres_vals(rres, energy as nat, bs as nat),
                order as nat,
                coff,
                bs as nat,
            ).skip(nw);
            assert(self.buffers@[ch as int].block() =~= raw);
            assert(self.buffers@[ch as int].history() =~= hist);
        }
        self.finish_channel_block(ch);
        Ok(())
    }

    /// Decode a block with quantized LPC prediction.
    #[verifier::loop_isolation(false)]
    #[verifier::rlimit(60)]
    fn decode_qlpc(&mut self) -> (r: Result<(), ShnError>)
        requires
            old(self).wf(),
            old(self).channels > 0,
        ensures
            final(self).wf(),
            final(self).channels == old(self).channels,
            final(self).blocksize == old(self).blocksize,
            final(self).maxnlpc == old(self).maxnlpc,
            final(self).nmean == old(self).nmean,
            final(self).version == old(self).version,
            final(self).finished == old(self).finished,
            final(self).pending_cmd == old(self).pending_cmd,
            final(self).output_buf == old(self).output_buf,
            final(self).output_pos == old(self).output_pos,
            final(self).reader.bytes == old(self).reader.bytes,
            final(self).current_channel < final(self).channels,
            match r {
                Ok(()) => {
                    let s = old(self).reader.bits();
                    let chk = qlpc_check(s, old(self).maxnlpc as nat, old(self).blocksize as nat);
                    let ch = old(self).current_channel as int;
                    &&& chk matches Ok(t)
                    &&& final(self).reader.bits() == chk->Ok_0.4
                    &&& final(self).reader.bits().len() < old(self).reader.bits().len()
                    &&& post_block(
                        *old(self),
                        *final(self),
                        qlpc_ext(
                            old(self).buffers@[ch].history(),
                            chk->Ok_0.3,
                            chk->Ok_0.2,
                            old(self).blocksize as nat,
                        ).skip(nwrap_of(old(self).maxnlpc as nat) as int),
                    )
                },
                Err(e) => qlpc_check(
                    old(self).reader.bits(),
                    old(self).maxnlpc as nat,
                    old(self).blocksize as nat,
                ) == Err::<(nat, nat, Seq<int>, Seq<int>, Seq<bool>), ShnError>(e),
            },
    {
        let ghost pre = *self;
        let ghost s = self.reader.bits();
        let ch = self.current_channel as usize;
        let energy = match self.reader.read_unsigned_rice(3) {
            Ok(v) => v,
            Err(_) => {
                return Err(ShnError::Io);
            },
        };
        if energy > 24 {
            return Err(ShnError::Io);
        }
        let order_u = match self.reader.read_unsigned_rice(2) {
            Ok(v) => v,
            Err(_) => {
                return Err(ShnError::Io);
            },
        };
        let order = order_u as usize;
        if order > self.maxnlpc || order > 128 {
            return Err(ShnError::InvalidLpcOrder(u32_as_i32(order_u)));
        }
        let ghost r2 = rice_rest(rice_rest(s, 3), 2);
        // Read the quantized LPC coefficients.
        let mut lpc_coeffs: Vec<i32> = Vec::new();
        let mut j: usize = 0;
        while j < order
            invariant
                j <= order,
                self.wf(),
                lpc_coeffs@.len() == j,
                urice_seq_ok(r2, 3, j as nat),
                self.reader.bits() == urice_seq_rest(r2, 3, j as nat),
                self.reader.bytes == pre.reader.bytes,
                forall|x: int|
                    0 <= x < j ==> lpc_coeffs@[x] as int == sres_vals(r2, 2, j as nat)[x],
                *self == (Decoder { reader: self.reader, ..pre }),
            decreases order - j,
        {
            proof {
                lemma_urice_seq_snoc(r2, 3, j as nat);
            }
            let c = match self.reader.read_signed_rice(2) {
                Ok(v) => v,
                Err(_) => {
                    proof {
                        if urice_seq_ok(r2, 3, order as nat) {
                            lemma_urice_seq_mono(r2, 3, (j + 1) as nat, order as nat);
                        }
                    }
                    return Err(ShnError::Io);
                },
            };
            proof {
                lemma_urice_seq_props(r2, 3, j as nat);
                lemma_sres_snoc(r2, 2, j as nat);
                assert(sres_vals(r2, 2, j as nat).len() == j);
            }
            lpc_coeffs.push(c);
            j = j + 1;
        }
        let ghost cseq = sres_vals(r2, 2, order as nat);
        proof {
            lemma_urice_seq_props(r2, 3, order as nat);
            assert(cseq.len() == order);
        }
        let ghost r3 = urice_seq_rest(r2, 3, order as nat);
        let bs = self.blocksize;
        let ghost hist = pre.buffers@[ch as int].history();
        let ghost nw = nwrap_of(pre.maxnlpc as nat) as int;
        let mut i: usize = 0;
        while i < bs
            invariant
                i <= bs,
                self.blocksize == bs,
                self.wf(),
                ch < self.channels,
                energy <= 24,
                order == order_u && order <= nw,
                lpc_coeffs@.len() == order,
                forall|x: int| 0 <= x < order ==> lpc_coeffs@[x] as int == cseq[x],
                cseq.len() == order,
                self.buffers@.len() == pre.buffers@.len(),
                forall|j2: int|
                    0 <= j2 < pre.buffers@.len() && j2 != ch ==> self.buffers@[j2]
                        == pre.buffers@[j2],
                self.buffers@[ch as int].blocksize == bs,
                urice_seq_ok(r3, (energy + 1) as nat, i as nat),
                self.reader.bits() == urice_seq_rest(r3, (energy + 1) as nat, i as nat),
                self.reader.bytes == pre.reader.bytes,
                self.buffers@[ch as int].data@.subrange(0, nw + i) == qlpc_ext(
                    hist,
                    sres_vals(r3, energy as nat, i as nat),
                    cseq,
                    i as nat,
                ),
                *self == (Decoder { buffers: self.buffers, reader: self.reader, ..pre }),
            decreases bs - i,
        {
            proof {
                lemma_urice_seq_snoc(r3, (energy + 1) as nat, i as nat);
            }
            let res = match self.reader.read_signed_rice(energy) {
                Ok(v) => v,
                Err(_) => {
                    proof {
                        if urice_seq_ok(r3, (energy + 1) as nat, bs as nat) {
                            lemma_urice_seq_mono(r3, (energy + 1) as nat, (i + 1) as nat, bs as nat);
                        }
                    }
                    return Err(ShnError::Io);
                },
            };
            let ghost resseq = sres_vals(r3, energy as nat, (i + 1) as nat);
            proof {
                lemma_urice_seq_props(r3, (energy + 1) as nat, i as nat);
                lemma_sres_snoc(r3, energy as nat, i as nat);
                assert(sres_vals(r3, energy as nat, i as nat).len() == i);
                lemma_qlpc_ext_prefix(
                    hist,
                    sres_vals(r3, energy as nat, i as nat),
                    resseq,
                    cseq,
                    i as nat,
                );
            }
            let ghost ext = qlpc_ext(hist, resseq, cseq, i as nat);
            proof {
                assert(ext.len() == nw + i);
                assert forall|x: int| 0 <= x < nw + i implies ext[x]
                    == self.buffers@[ch as int].data@[x] by {
                    assert(self.buffers@[ch as int].data@.subrange(0, nw + i)[x] == ext[x]);
                }
            }
            let ii = i as isize;
            let mut acc: i64 = 0;
            let mut jj: usize = 0;
            while jj < order
                invariant
                    jj <= order,
                    order <= nw,
                    i < bs,
                    ii == i as isize,
                    self.wf(),
                    ch < self.channels,
                    self.blocksize == bs,
                    self.buffers@[ch as int].blocksize == bs,
                    lpc_coeffs@.len() == order,
                    forall|x: int| 0 <= x < order ==> lpc_coeffs@[x] as int == cseq[x],
                    ext.len() == nw + i,
                    forall|x: int| 0 <= x < nw + i ==> ext[x] == self.buffers@[ch as int].data@[x],
                    acc == crop64(qlpc_sum(ext, cseq, jj as nat)),
                decreases order - jj,
            {
                let sm = self.buffers[ch].get(ii - (jj as isize) - 1);
                proof {
                    assert(-0x4000_0000_0000_0000 <= (lpc_coeffs@[jj as int] as int) * (sm as int)
                        <= 0x4000_0000_0000_0000) by (nonlinear_arith)
                        requires
                            -0x8000_0000 <= lpc_coeffs@[jj as int] as int <= 0x7FFF_FFFF,
                            -0x8000_0000 <= sm as int <= 0x7FFF_FFFF,
                    ;
                }
                let term: i64 = (lpc_coeffs[jj] as i64) * (sm as i64);
                proof {
                    assert(ext[nw + i - 1 - jj] == sm);
                    lemma_crop64_add(acc, term);
                    lemma_crop64_mod(qlpc_sum(ext, cseq, jj as nat));
                    lemma_add_mod_noop(
                        crop64(qlpc_sum(ext, cseq, jj as nat)) as int,
                        term as int,
                        0x1_0000_0000_0000_0000,
                    );
                    lemma_add_mod_noop(
                        qlpc_sum(ext, cseq, jj as nat),
                        term as int,
                        0x1_0000_0000_0000_0000,
                    );
                    lemma_crop64_congruent(
                        acc + term,
                        qlpc_sum(ext, cseq, jj as nat) + term,
                    );
                }
                acc = acc.wrapping_add(term);
                jj = jj + 1;
            }
            let shifted: i64 = floor_div_pow2(acc, 5);
            proof {
                lemma2_to64();
            }
            let sample = crop_i64_to_i32((res as i64) + shifted);
            self.buffers[ch].set(ii, sample);
            proof {
                assert(self.buffers@[ch as int].data@.subrange(0, nw + i + 1) =~= qlpc_ext(
                    hist,
                    resseq,
                    cseq,
                    (i + 1) as nat,
                ));
            }
            i = i + 1;
        }
        proof {
            lemma_urice_seq_props(r3, (energy + 1) as nat, bs as nat);
            lemma_rice_rest_len(s, 3);
            lemma_qlpc_ext_props(hist, sres_vals(r3, energy as nat, bs as nat), cseq, bs as nat);
            assert(self.buffers@[ch as int].data@.subrange(0, nw + bs) =~= self.buffers@[
                ch as int].data@);
            let raw = qlpc_ext(hist, sres_vals(r3, energy as nat, bs as nat), cseq, bs as nat).skip(
                nw,
            );
            assert(self.buffers@[ch as int].block() =~= raw);
            assert(self.buffers@[ch as int].history() =~= hist);
        }
        self.finish_channel_block(ch);
        Ok(())
    }

    /// Interleave the decoded blocks of all channels into the output buffer:
    /// sample `k` of the output is sample `k / channels` of channel
    /// `k % channels`.
    #[verifier::loop_isolation(false)]
    fn interleave_output(&mut self)
        requires
            old(self).wf(),
        ensures
            final(self).wf(),
            *final(self) == (Decoder {
                output_buf: final(self).output_buf,
                output_pos: 0,
                ..*old(self)
            }),
            final(self).output_buf@.len() == old(self).blocksize * old(self).channels,
            forall|k: int|
                0 <= k < final(self).output_buf@.len() ==> final(self).output_buf@[k] == old(self).buffers@[k % (old(self).channels as int)].block()[k / (old(self).channels as int)],
    {
        let ghost pre = *self;
        let nchan = self.channels as usize;
        let bs = self.blocksize;
        self.output_buf = Vec::new();
        self.output_pos = 0;
        let mut i: usize = 0;
        while i < bs
            invariant
                i <= bs,
                nchan == self.channels,
                bs == self.blocksize,
                self.wf(),
                self.output_buf@.len() == i * nchan,
                self.output_pos == 0,
                forall|k: int|
                    0 <= k < i * nchan ==> self.output_buf@[k] == pre.buffers@[k % (
                    nchan as int)].block()[k / (nchan as int)],
                *self == (Decoder { output_buf: self.output_buf, output_pos: 0, ..pre }),
            decreases bs - i,
        {
            let mut c: usize = 0;
            while c < nchan
                invariant
                    i < bs,
                    c <= nchan,
                    nchan == self.channels,
                    bs == self.blocksize,
                    self.wf(),
                    self.output_buf@.len() == i * nchan + c,
                    self.output_pos == 0,
                    forall|k: int|
                        0 <= k < i * nchan + c ==> self.output_buf@[k] == pre.buffers@[k % (
                        nchan as int)].block()[k / (nchan as int)],
                    *self == (Decoder { output_buf: self.output_buf, output_pos: 0, ..pre }),
                decreases nchan - c,
            {
                let v = self.buffers[c].get(i as isize);
                self.output_buf.push(v);
                proof {
                    let k = i * nchan + c;
                    lemma_fundamental_div_mod_converse(k as int, nchan as int, i as int, c as int);
                }
                c = c + 1;
            }
            proof {
                lemma_mul_is_distributive_add_other_way(nchan as int, i as int, 1);
            }
            i = i + 1;
        }
    }

    /// Run one non-QUIT command against the decoder state.  The result and
    /// the new state are exactly those of the round machine's `spec_cmd`;
    /// the returned flag says whether a block was produced.
    #[verifier::loop_isolation(false)]
    #[verifier::rlimit(100)]
    #[verifier::spinoff_prover]
    fn run_command(&mut self, cmd: i32) -> (r: Result<bool, ShnError>)
        requires
            old(self).wf(),
            old(self).channels > 0,
            old(self).pending_cmd is None,
            cmd != 4,
        ensures
            final(self).wf(),
            final(self).channels == old(self).channels,
            final(self).nmean == old(self).nmean,
            final(self).maxnlpc == old(self).maxnlpc,
            final(self).version == old(self).version,
            final(self).reader.bytes == old(self).reader.bytes,
            final(self).output_buf == old(self).output_buf,
            final(self).output_pos == old(self).output_pos,
            final(self).finished == old(self).finished,
            final(self).pending_cmd is None,
            r is Ok ==> final(self).reader.bits().len() <= old(self).reader.bits().len(),
            match r {
                Ok(produced) => spec_cmd(
                    cmd as int,
                    abs_state(*old(self)),
                    old(self).channels as nat,
                    old(self).maxnlpc as nat,
                    old(self).nmean as nat,
                    nwrap_of(old(self).maxnlpc as nat),
                ) == Ok::<Option<(DecState, bool)>, ShnError>(
                    Some((abs_state(*final(self)), produced)),
                ),
                Err(e) => spec_cmd(
                    cmd as int,
                    abs_state(*old(self)),
                    old(self).channels as nat,
                    old(self).maxnlpc as nat,
                    old(self).nmean as nat,
                    nwrap_of(old(self).maxnlpc as nat),
                ) == Err::<Option<(DecState, bool)>, ShnError>(e),
            },
    {
        let ghost chn = old(self).channels as nat;
        let ghost mx = old(self).maxnlpc as nat;
        let ghost nm = old(self).nmean as nat;
        let ghost nw = nwrap_of(old(self).maxnlpc as nat);
        let ghost st_cmd = abs_state(*old(self));
        let ghost dcmd = *self;
        let nchan = self.channels as usize;
        proof {
            lemma_spec_cmd_unfold(cmd as int, st_cmd, chn, mx, nm, nw);
        }
        if cmd == FN_BLOCKSIZE {
            let new_bs_u = match self.reader.read_ulong() {
                Ok(v) => v,
                Err(e) => {
                    return Err(e);
                },
            };
            let new_bs = u32_as_i32(new_bs_u);
            if new_bs <= 0 || new_bs > 65536 {
                return Err(ShnError::InvalidBlockSize(new_bs));
            }
            self.blocksize = new_bs as usize;
            let ghost rsnap = self.reader;
            let ghost dpre = *self;
            let mut j: usize = 0;
            while j < nchan
                invariant
                    j <= nchan,
                    nchan == self.channels,
                    self.buffers@.len() == nchan,
                    dpre.buffers@.len() == nchan,
                    1 <= self.blocksize <= 65536,
                    self.blocksize == new_bs as usize,
                    self.maxnlpc <= 128,
                    self.maxnlpc == dpre.maxnlpc,
                    forall|x: int|
                        0 <= x < nchan ==> (#[trigger] self.buffers@[x]).wf()
                            && self.buffers@[x].nwrap == nwrap_of(self.maxnlpc as nat),
                    forall|x: int|
                        0 <= x < j ==> (#[trigger] self.buffers@[x]).blocksize == self.blocksize
                            && self.buffers@[x].data@ == dpre.buffers@[x].data@.subrange(
                            0,
                            nw as int,
                        ) + Seq::new(new_bs as nat, |i2: int| 0i32),
                    forall|x: int| j <= x < nchan ==> self.buffers@[x] == dpre.buffers@[x],
                    *self == (Decoder { buffers: self.buffers, ..dpre }),
                    self.reader == rsnap,
                decreases nchan - j,
            {
                let bs2 = self.blocksize;
                self.buffers[j].resize(bs2);
                proof {
                    let bj = self.buffers@[j as int];
                    let want = dpre.buffers@[j as int].data@.subrange(0, nw as int) + Seq::new(
                        new_bs as nat,
                        |i2: int| 0i32,
                    );
                    assert(bj.nwrap == nw);
                    assert(bj.data@.len() == want.len());
                    assert forall|i2: int| 0 <= i2 < bj.data@.len() implies bj.data@[i2]
                        == want[i2] by {
                        if i2 < nw {
                            assert(bj.data@[i2] == bj.history()[i2]);
                            assert(dpre.buffers@[j as int].history()[i2] == dpre.buffers@[
                            j as int].data@[i2]);
                        } else {
                            assert(bj.data@[i2] == bj.block()[i2 - nw]);
                        }
                    }
                    assert(bj.data@ =~= want);
                }
                j = j + 1;
            }
            proof {
                assert(*self == (Decoder {
                    blocksize: self.blocksize,
                    reader: self.reader,
                    buffers: self.buffers,
                    ..dcmd
                }));
                lemma_step_blocksize(dcmd, *self, new_bs);
            }
            Ok(false)
        } else if cmd == FN_BITSHIFT {
            match self.reader.read_unsigned_rice(2) {
                Ok(v) => {
                    self.bitshift = v;
                    proof {
                        let stn = DecState {
                            bits: rice_rest(st_cmd.bits, 2),
                            bitshift: rice_val(st_cmd.bits, 2) as nat,
                            ..st_cmd
                        };
                        assert(abs_state(*self) == stn);
                    }
                    Ok(false)
                },
                Err(e) => Err(e),
            }
        } else if cmd == FN_VERBATIM {
            let nbytes = match self.reader.read_unsigned_rice(5) {
                Ok(v) => v,
                Err(e) => {
                    return Err(e);
                },
            };
            let ghost r1 = self.reader.bits();
            let ghost dv = *self;
            let mut vi: u32 = 0;
            while vi < nbytes
                invariant
                    vi <= nbytes,
                    self.wf(),
                    urice_seq_ok(r1, 8, vi as nat),
                    self.reader.bits() == urice_seq_rest(r1, 8, vi as nat),
                    *self == (Decoder { reader: self.reader, ..dv }),
                    self.reader.bytes == dv.reader.bytes,
                decreases nbytes - vi,
            {
                proof {
                    lemma_urice_seq_snoc(r1, 8, vi as nat);
                }
                match self.reader.read_unsigned_rice(8) {
                    Ok(_) => {
                        vi = vi + 1;
                    },
                    Err(e) => {
                        proof {
                            if urice_seq_ok(r1, 8, nbytes as nat) {
                                lemma_urice_seq_mono(r1, 8, (vi + 1) as nat, nbytes as nat);
                            }
                        }
                        return Err(e);
                    },
                }
            }
            proof {
                lemma_urice_seq_props(r1, 8, nbytes as nat);
                let stn = DecState {
                    bits: urice_seq_rest(r1, 8, rice_val(st_cmd.bits, 5) as nat),
                    ..st_cmd
                };
                assert(abs_state(*self) == stn);
            }
            Ok(false)
        } else if cmd == FN_ZERO {
            let ch = self.current_channel as usize;
            let bs = self.blocksize;
            let ghost dz = *self;
            let ghost rsnap = self.reader;
            let mut z: usize = 0;
            while z < bs
                invariant
                    z <= bs,
                    self.wf(),
                    bs == self.blocksize,
                    ch == self.current_channel,
                    ch < self.channels,
                    self.reader == rsnap,
                    self.buffers@.len() == dz.buffers@.len(),
                    forall|x: int|
                        0 <= x < dz.buffers@.len() && x != ch ==> self.buffers@[x] == dz.buffers@[
                            x],
                    self.buffers@[ch as int].blocksize == bs,
                    self.buffers@[ch as int].nwrap == dz.buffers@[ch as int].nwrap,
                    self.buffers@[ch as int].history() == dz.buffers@[ch as int].history(),
                    forall|j2: int| 0 <= j2 < z ==> self.buffers@[ch as int].block()[j2] == 0i32,
                    *self == (Decoder { buffers: self.buffers, ..dz }),
                decreases bs - z,
            {
                let ghost bpre = self.buffers@[ch as int];
                self.buffers[ch].set(z as isize, 0);
                proof {
                    assert(self.buffers@[ch as int].data@ == bpre.data@.update(
                        bpre.nwrap + z as int,
                        0i32,
                    ));
                    assert forall|j2: int| 0 <= j2 < z + 1 implies self.buffers@[
                        ch as int].block()[j2] == 0i32 by {
                        assert(self.buffers@[ch as int].block()[j2] == self.buffers@[
                        ch as int].data@[self.buffers@[ch as int].nwrap + j2]);
                        if j2 < z {
                            assert(bpre.block()[j2] == bpre.data@[bpre.nwrap + j2]);
                        }
                    }
                    assert(self.buffers@[ch as int].history() =~= dz.buffers@[
                    ch as int].history());
                }
                z = z + 1;
            }
            let ghost dmid = *self;
            proof {
                assert(dmid.buffers@[ch as int].block() =~= Seq::new(
                    dz.blocksize as nat,
                    |i2: int| 0i32,
                ));
            }
            self.finish_channel_block(ch);
            proof {
                lemma_step_zero(dz, dmid, *self);
            }
            Ok(true)
        } else if cmd >= FN_DIFF0 && cmd <= FN_DIFF3 {
            let ghost hpre = *self;
            match self.decode_fixed_prediction(cmd as usize) {
                Ok(()) => {
                    proof {
                        lemma_step_fixed(hpre, *self, cmd as int);
                    }
                    Ok(true)
                },
                Err(e) => Err(e),
            }
        } else if cmd == FN_QLPC {
            let ghost hpre = *self;
            match self.decode_qlpc() {
                Ok(()) => {
                    proof {
                        lemma_step_qlpc(hpre, *self);
                    }
                    Ok(true)
                },
                Err(e) => Err(e),
            }
        } else {
            Err(ShnError::InvalidCommand(cmd))
        }
    }

    /// Decode the next round of blocks: commands are processed until one
    /// block has been produced for every channel, then the blocks are
    /// interleaved into the output buffer.  The result and the final state
    /// are exactly those of the round machine `spec_round`: `Ok(true)` when
    /// a full round was decoded, `Ok(false)` when the stream ends (QUIT,
    /// with the pass's samples discarded), and the round's error otherwise.
    #[verifier::loop_isolation(false)]
    #[verifier::rlimit(100)]
    #[verifier::spinoff_prover]
    pub fn decode_next_block(&mut self) -> (r: Result<bool, ShnError>)
        requires
            old(self).wf(),
        ensures
            final(self).wf(),
            final(self).channels == old(self).channels,
            final(self).nmean == old(self).nmean,
            final(self).maxnlpc == old(self).maxnlpc,
            final(self).version == old(self).version,
            final(self).reader.bytes == old(self).reader.bytes,
            old(self).finished ==> r == Ok::<bool, ShnError>(false) && *final(self) == *old(self),
            match r {
                Ok(true) => {
                    &&& !old(self).finished
                    &&& !final(self).finished
                    &&& spec_round(
                        abs_state(*old(self)),
                        old(self).channels as nat,
                        old(self).channels as nat,
                        old(self).maxnlpc as nat,
                        old(self).nmean as nat,
                        nwrap_of(old(self).maxnlpc as nat),
                    ) == Ok::<Option<DecState>, ShnError>(Some(abs_state(*final(self))))
                    &&& final(self).output_pos == 0
                    &&& final(self).output_buf@.len() == final(self).blocksize * final(self).channels
                    &&& forall|k: int|
                        0 <= k < final(self).output_buf@.len() ==> final(self).output_buf@[k]
                            == final(self).buffers@[k % (final(self).channels as int)].block()[k / (
                        final(self).channels as int)]
                },
                Ok(false) => {
                    &&& final(self).finished
                    &&& !old(self).finished ==> {
                        &&& spec_round(
                            abs_state(*old(self)),
                            old(self).channels as nat,
                            old(self).channels as nat,
                            old(self).maxnlpc as nat,
                            old(self).nmean as nat,
                            nwrap_of(old(self).maxnlpc as nat),
                        ) == Ok::<Option<DecState>, ShnError>(None)
                        &&& final(self).output_buf == old(self).output_buf
                        &&& final(self).output_pos == old(self).output_pos
                    }
                },
                Err(e) => {
                    &&& !old(self).finished
                    &&& !final(self).finished
                    &&& spec_round(
                        abs_state(*old(self)),
                        old(self).channels as nat,
                        old(self).channels as nat,
                        old(self).maxnlpc as nat,
                        old(self).nmean as nat,
                        nwrap_of(old(self).maxnlpc as nat),
                    ) == Err::<Option<DecState>, ShnError>(e)
                    &&& final(self).output_buf == old(self).output_buf
                    &&& final(self).output_pos == old(self).output_pos
                },
            },
    {
        if self.finished {
            return Ok(false);
        }
        let ghost chn = old(self).channels as nat;
        let ghost mx = old(self).maxnlpc as nat;
        let ghost nm = old(self).nmean as nat;
        let ghost nw = nwrap_of(old(self).maxnlpc as nat);
        let nchan = self.channels as usize;
        let mut blocks_decoded: usize = 0;
        while blocks_decoded < nchan
            invariant
                self.wf(),
                blocks_decoded <= nchan,
                nchan == self.channels,
                self.channels == old(self).channels,
                self.nmean == old(self).nmean,
                self.maxnlpc == old(self).maxnlpc,
                self.version == old(self).version,
                self.reader.bytes == old(self).reader.bytes,
                self.output_buf == old(self).output_buf,
                self.output_pos == old(self).output_pos,
                !self.finished,
                spec_round(abs_state(*old(self)), chn, chn, mx, nm, nw) == spec_round(
                    abs_state(*self),
                    (nchan - blocks_decoded) as nat,
                    chn,
                    mx,
                    nm,
                    nw,
                ),
            decreases self.reader.bits().len(), (if self.pending_cmd is Some {
                1int
            } else {
                0int
            }), nchan - blocks_decoded,
        {
            let ghost it_st = abs_state(*self);
            let ghost k = (nchan - blocks_decoded) as nat;
            let cmd: i32 = match self.pending_cmd {
                Some(c) => {
                    self.pending_cmd = None;
                    c
                },
                None => {
                    match self.reader.read_unsigned_rice(2) {
                        Ok(c) => u32_as_i32(c),
                        Err(e) => {
                            proof {
                                assert(spec_step(it_st, chn, mx, nm, nw) == Err::<
                                    Option<(DecState, bool)>,
                                    ShnError,
                                >(ShnError::Io));
                            }
                            return Err(e);
                        },
                    }
                },
            };
            let ghost st_cmd = abs_state(*self);
            proof {
                assert(spec_step(it_st, chn, mx, nm, nw) == spec_cmd(
                    cmd as int,
                    st_cmd,
                    chn,
                    mx,
                    nm,
                    nw,
                ));
            }
            if cmd == FN_QUIT {
                proof {
                    lemma_spec_cmd_unfold(cmd as int, st_cmd, chn, mx, nm, nw);
                    assert(spec_round(it_st, k, chn, mx, nm, nw) == Ok::<
                        Option<DecState>,
                        ShnError,
                    >(None));
                }
                self.finished = true;
                return Ok(false);
            }
            match self.run_command(cmd) {
                Ok(produced) => {
                    proof {
                        assert(spec_round(it_st, k, chn, mx, nm, nw) == spec_round(
                            abs_state(*self),
                            (if produced {
                                (k - 1) as nat
                            } else {
                                k
                            }),
                            chn,
                            mx,
                            nm,
                            nw,
                        ));
                    }
                    if produced {
                        blocks_decoded = blocks_decoded + 1;
                    }
                },
                Err(e) => {
                    return Err(e);
                },
            }
        }
        proof {
            assert(spec_round(abs_state(*self), 0, chn, mx, nm, nw) == Ok::<
                Option<DecState>,
                ShnError,
            >(Some(abs_state(*self))));
        }
        let ghost dil = *self;
        self.interleave_output();
        proof {
            assert(abs_state(*self) == abs_state(dil));
        }
        Ok(true)
    }
}

} // verus!
