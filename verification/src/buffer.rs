use vstd::prelude::*;
use vstd::arithmetic::div_mod::*;
use vstd::arithmetic::mul::*;

verus! {

// The highest-order fixed predictor (DIFF3) uses coefficients [3, -3, 1] and
// needs the three most recent samples; quantized LPC needs as many as its
// maximum order.  Every channel keeps a history prefix of the larger depth
// before the current block.

/// The sum of a sequence of samples, as a mathematical integer.
pub open spec fn sum_i32(s: Seq<i32>) -> int
    decreases s.len(),
{
    if s.len() == 0 {
        0
    } else {
        sum_i32(s.drop_last()) + s.last()
    }
}

/// Truncating (round-toward-zero) division for a positive divisor, as Rust's
/// `/` computes it on signed integers.
pub open spec fn tdiv(a: int, d: int) -> int {
    if a >= 0 {
        a / d
    } else {
        -((-a) / d)
    }
}

/// The DC offset derived from a window of per-block means: the rounded mean
/// of all slots, unfilled (zero) slots included, or 0 for an empty window.
pub open spec fn coffset_spec(vals: Seq<i32>) -> int {
    if vals.len() == 0 {
        0
    } else {
        tdiv(sum_i32(vals) + vals.len() / 2, vals.len() as int)
    }
}

pub proof fn lemma_sum_i32_take_step(s: Seq<i32>, i: int)
    requires
        0 <= i < s.len(),
    ensures
        sum_i32(s.take(i + 1)) == sum_i32(s.take(i)) + s[i],
{
    assert(s.take(i + 1).drop_last() =~= s.take(i));
}

/// Per-channel sample buffer with wrap-around history.
///
/// The storage holds `nwrap` history samples followed by the current block.
/// Indexing is relative to the start of the current block, so index -1 is
/// the last sample of the previous block.  The fixed predictors need three
/// history samples; quantized LPC needs as many as its maximum order, so a
/// decoder sizes the history at the larger of the two.
pub struct ChannelBuffer {
    /// Sample storage: `nwrap` history slots, then `blocksize` block slots.
    pub data: Vec<i32>,
    /// Current block size (may change mid-stream via the BLOCKSIZE command).
    pub blocksize: usize,
    /// Number of history samples kept before the block.
    pub nwrap: usize,
}

impl ChannelBuffer {
    pub open spec fn wf(self) -> bool {
        &&& self.data@.len() == self.nwrap + self.blocksize
        &&& self.blocksize <= 65536
        &&& 3 <= self.nwrap <= 128
    }

    /// The sample at block-relative position `i` (negative = history).
    pub open spec fn at(self, i: int) -> i32 {
        self.data@[self.nwrap + i]
    }

    /// The history samples (the most recent one last).
    pub open spec fn history(self) -> Seq<i32> {
        self.data@.subrange(0, self.nwrap as int)
    }

    /// The samples of the current block.
    pub open spec fn block(self) -> Seq<i32> {
        self.data@.skip(self.nwrap as int)
    }

    /// Create a buffer with the three history samples the fixed predictors
    /// need, all samples zero.
    pub fn new(blocksize: usize) -> (r: ChannelBuffer)
        requires
            blocksize <= 65536,
        ensures
            r.wf(),
            r.blocksize == blocksize,
            r.nwrap == 3,
            r.data@ == Seq::new((3 + blocksize) as nat, |i: int| 0i32),
    {
        ChannelBuffer::with_history(blocksize, 3)
    }

    /// Create a buffer with `nwrap` history samples, all samples zero.
    pub fn with_history(blocksize: usize, nwrap: usize) -> (r: ChannelBuffer)
        requires
            blocksize <= 65536,
            3 <= nwrap <= 128,
        ensures
            r.wf(),
            r.blocksize == blocksize,
            r.nwrap == nwrap,
            r.data@ == Seq::new((nwrap + blocksize) as nat, |i: int| 0i32),
    {
        let mut data: Vec<i32> = Vec::new();
        let mut i: usize = 0;
        while i < nwrap + blocksize
            invariant
                i <= nwrap + blocksize,
                blocksize <= 65536,
                nwrap <= 128,
                data@.len() == i,
                forall|j: int| 0 <= j < i ==> data@[j] == 0i32,
            decreases nwrap + blocksize - i,
        {
            data.push(0);
            i = i + 1;
        }
        let r = ChannelBuffer { data, blocksize, nwrap };
        proof {
            assert(r.data@ =~= Seq::new((nwrap + blocksize) as nat, |i: int| 0i32));
        }
        r
    }

    /// Resize the buffer for a new block size: the history is preserved and
    /// the whole block region is zero-filled.
    pub fn resize(&mut self, new_blocksize: usize)
        requires
            old(self).wf(),
            new_blocksize <= 65536,
        ensures
            final(self).wf(),
            final(self).blocksize == new_blocksize,
            final(self).nwrap == old(self).nwrap,
            final(self).history() == old(self).history(),
            forall|j: int| 0 <= j < new_blocksize ==> final(self).block()[j] == 0i32,
    {
        let nw = self.nwrap;
        self.blocksize = new_blocksize;
        self.data.truncate(nw);
        let mut i: usize = nw;
        while i < nw + new_blocksize
            invariant
                nw <= i <= nw + new_blocksize,
                new_blocksize <= 65536,
                nw <= 128,
                self.data@.len() == i,
                self.blocksize == new_blocksize,
                self.nwrap == nw,
                nw == old(self).nwrap,
                forall|j: int| 0 <= j < nw ==> self.data@[j] == old(self).data@[j],
                forall|j: int| nw <= j < i ==> self.data@[j] == 0i32,
            decreases nw + new_blocksize - i,
        {
            self.data.push(0);
            i = i + 1;
        }
        proof {
            assert(self.history() =~= old(self).history());
        }
    }

    /// Get the sample at position `i` relative to the current block start.
    /// Negative indices access the history region.
    pub fn get(&self, i: isize) -> (r: i32)
        requires
            self.wf(),
            -(self.nwrap as int) <= i < self.blocksize as int,
        ensures
            r == self.at(i as int),
    {
        let idx: usize = (self.nwrap as isize + i) as usize;
        self.data[idx]
    }

    /// Set the sample at position `i` relative to the current block start.
    pub fn set(&mut self, i: isize, val: i32)
        requires
            old(self).wf(),
            -(old(self).nwrap as int) <= i < old(self).blocksize as int,
        ensures
            final(self).wf(),
            final(self).blocksize == old(self).blocksize,
            final(self).nwrap == old(self).nwrap,
            final(self).data@ == old(self).data@.update(old(self).nwrap + i as int, val),
    {
        let idx: usize = (self.nwrap as isize + i) as usize;
        self.data[idx] = val;
    }

    /// After a block is decoded, copy its last `nwrap` samples into the
    /// history region, so the next block's predictors can reach them through
    /// negative indices.  In particular the three most recent samples land
    /// at indices -3, -2, -1.
    pub fn wrap_around(&mut self)
        requires
            old(self).wf(),
        ensures
            final(self).wf(),
            final(self).blocksize == old(self).blocksize,
            final(self).nwrap == old(self).nwrap,
            final(self).block() == old(self).block(),
            final(self).history() == old(self).data@.subrange(
                old(self).blocksize as int,
                old(self).blocksize + old(self).nwrap,
            ),
            old(self).blocksize >= old(self).nwrap ==> final(self).history() == old(
                self,
            ).block().subrange(
                old(self).blocksize - old(self).nwrap,
                old(self).blocksize as int,
            ),
            old(self).blocksize >= 3 ==> final(self).at(-1) == old(self).at(
                old(self).blocksize - 1,
            ) && final(self).at(-2) == old(self).at(old(self).blocksize - 2) && final(self).at(
                -3,
            ) == old(self).at(old(self).blocksize - 3),
    {
        let bs = self.blocksize;
        let nw = self.nwrap;
        let mut i: usize = 0;
        while i < nw
            invariant
                i <= nw,
                self.wf(),
                bs == self.blocksize,
                nw == self.nwrap,
                self.blocksize == old(self).blocksize,
                self.nwrap == old(self).nwrap,
                forall|j: int| 0 <= j < i ==> self.data@[j] == old(self).data@[bs + j],
                forall|j: int| i <= j < self.data@.len() ==> self.data@[j] == old(self).data@[j],
            decreases nw - i,
        {
            let v = self.data[bs + i];
            self.data[i] = v;
            i = i + 1;
        }
        proof {
            assert(self.block() =~= old(self).block());
            assert(self.history() =~= old(self).data@.subrange(
                old(self).blocksize as int,
                old(self).blocksize + old(self).nwrap,
            ));
            if old(self).blocksize >= old(self).nwrap {
                assert(self.history() =~= old(self).block().subrange(
                    old(self).blocksize - old(self).nwrap,
                    old(self).blocksize as int,
                ));
            }
        }
    }

    /// The current block size.
    pub fn blocksize(&self) -> (r: usize)
        ensures
            r == self.blocksize,
    {
        self.blocksize
    }

    /// The decoded samples of the current block (the history excluded).
    pub fn block_samples(&self) -> (r: Vec<i32>)
        requires
            self.wf(),
        ensures
            r@ == self.block(),
    {
        let mut r: Vec<i32> = Vec::new();
        let mut i: usize = 0;
        while i < self.blocksize
            invariant
                self.wf(),
                i <= self.blocksize,
                r@.len() == i,
                forall|j: int| 0 <= j < i ==> r@[j] == self.block()[j],
            decreases self.blocksize - i,
        {
            r.push(self.data[self.nwrap + i]);
            i = i + 1;
        }
        proof {
            assert(r@ =~= self.block());
        }
        r
    }
}

/// Rolling window of per-block means, used to derive the DC offset applied
/// by the order-0 predictor.  The window counts unfilled slots as zero,
/// which deliberately dilutes the estimate until the window fills.
pub struct MeanAccumulator {
    /// Circular buffer of per-block means.
    pub values: Vec<i32>,
    /// Write index into the circular buffer.
    pub index: usize,
}

impl MeanAccumulator {
    pub open spec fn wf(self) -> bool {
        &&& self.values@.len() <= 0xFFFF_FFFF
        &&& self.values@.len() > 0 ==> self.index < self.values@.len()
        &&& self.values@.len() == 0 ==> self.index == 0
    }

    pub fn new(nmean: usize) -> (r: MeanAccumulator)
        requires
            nmean <= 0xFFFF_FFFF,
        ensures
            r.wf(),
            r.values@.len() == nmean,
            forall|j: int| 0 <= j < nmean ==> r.values@[j] == 0i32,
            r.index == 0,
    {
        let mut values: Vec<i32> = Vec::new();
        let mut i: usize = 0;
        while i < nmean
            invariant
                i <= nmean,
                values@.len() == i,
                forall|j: int| 0 <= j < i ==> values@[j] == 0i32,
            decreases nmean - i,
        {
            values.push(0);
            i = i + 1;
        }
        MeanAccumulator { values, index: 0 }
    }

    /// The current DC offset: the rounded mean of the window, all slots
    /// counted.  The block size plays no role in this derivation; the
    /// parameter is kept for signature compatibility with callers.
    pub fn coffset(&self, _blocksize: usize) -> (r: i32)
        requires
            self.wf(),
        ensures
            r == coffset_spec(self.values@),
    {
        let n = self.values.len();
        if n == 0 {
            return 0;
        }
        let vals = &self.values;
        let mut sum: i64 = 0;
        let mut i: usize = 0;
        while i < n
            invariant
                i <= n,
                n == vals@.len(),
                n <= 0xFFFF_FFFF,
                sum == sum_i32(vals@.take(i as int)),
                -(i as int) * 0x8000_0000 <= sum <= (i as int) * 0x7FFF_FFFF,
            decreases n - i,
        {
            proof {
                lemma_sum_i32_take_step(vals@, i as int);
                lemma_mul_is_distributive_add_other_way(0x8000_0000, i as int, 1);
                lemma_mul_is_distributive_add_other_way(0x7FFF_FFFF, i as int, 1);
                lemma_mul_inequality(i + 1, 0xFFFF_FFFF, 0x7FFF_FFFF);
                lemma_mul_inequality(i + 1, 0xFFFF_FFFF, 0x8000_0000);
            }
            sum = sum + (vals[i] as i64);
            i = i + 1;
        }
        let half: usize = n / 2;
        proof {
            assert(vals@.take(n as int) =~= vals@);
            lemma_mul_inequality(n as int, 0xFFFF_FFFF, 0x7FFF_FFFF);
            lemma_mul_inequality(n as int, 0xFFFF_FFFF, 0x8000_0000);
        }
        let a: i64 = sum + (half as i64);
        let r64: i64 = tdiv_i64(a, n as u64);
        proof {
            lemma_coffset_range(vals@);
        }
        r64 as i32
    }

    /// Store a new per-block mean, overwriting the oldest slot.  A window of
    /// size zero ignores the value.
    pub fn push(&mut self, block_sum: i32)
        requires
            old(self).wf(),
        ensures
            final(self).wf(),
            old(self).values@.len() == 0 ==> *final(self) == *old(self),
            old(self).values@.len() > 0 ==> {
                &&& final(self).values@ == old(self).values@.update(old(self).index as int, block_sum)
                &&& final(self).index == (old(self).index + 1) % (old(self).values@.len() as int)
            },
    {
        let cap = self.values.len();
        if cap == 0 {
            return ;
        }
        self.values[self.index] = block_sum;
        if self.index + 1 == cap {
            proof {
                lemma_mod_self_0(cap as int);
            }
            self.index = 0;
        } else {
            proof {
                lemma_small_mod((self.index + 1) as nat, cap as nat);
            }
            self.index = self.index + 1;
        }
    }

    /// The number of slots in the window (`nmean`).
    pub fn capacity(&self) -> (r: usize)
        ensures
            r == self.values@.len(),
    {
        self.values.len()
    }
}

/// Truncating division of a signed value by a positive divisor, computed
/// through unsigned division as Rust's `/` would.
pub(crate) fn tdiv_i64(a: i64, d: u64) -> (r: i64)
    requires
        d > 0,
    ensures
        r == tdiv(a as int, d as int),
        0 <= a ==> 0 <= r <= a,
        a < 0 ==> a <= r <= 0,
{
    if a >= 0 {
        let q: u64 = (a as u64) / d;
        proof {
            lemma_div_basics(a as int);
            lemma_div_is_ordered_by_denominator(a as int, 1, d as int);
            lemma_div_pos_is_pos(a as int, d as int);
        }
        q as i64
    } else {
        let m: u128 = (-(a as i128)) as u128;
        let q: u128 = m / (d as u128);
        proof {
            lemma_div_basics(m as int);
            lemma_div_is_ordered_by_denominator(m as int, 1, d as int);
            lemma_div_pos_is_pos(m as int, d as int);
        }
        let qi: i128 = -(q as i128);
        qi as i64
    }
}

/// The rounded mean of a window lies within the 32-bit signed range.
proof fn lemma_coffset_range(vals: Seq<i32>)
    requires
        0 < vals.len() <= 0xFFFF_FFFF,
    ensures
        -0x8000_0000 <= coffset_spec(vals) <= 0x7FFF_FFFF,
        -(vals.len() as int) * 0x8000_0000 <= sum_i32(vals) <= (vals.len() as int) * 0x7FFF_FFFF,
{
    let n = vals.len() as int;
    lemma_sum_bounds(vals);
    let a = sum_i32(vals) + vals.len() / 2;
    let h = vals.len() / 2;
    assert(h < n);
    if a >= 0 {
        // a <= n * 0x7FFF_FFFF + h, so a / n <= 0x7FFF_FFFF.
        lemma_div_is_ordered(a, n * 0x7FFF_FFFF + h, n);
        lemma_hoist_over_denominator(h as int, 0x7FFF_FFFF, vals.len());
        lemma_basic_div(h as int, n);
        assert(coffset_spec(vals) <= 0x7FFF_FFFF);
        lemma_div_pos_is_pos(a, n);
    } else {
        // -a <= n * 0x8000_0000, so (-a) / n <= 0x8000_0000.
        lemma_div_is_ordered(-a, n * 0x8000_0000, n);
        lemma_div_multiples_vanish(0x8000_0000, n);
        lemma_div_pos_is_pos(-a, n);
    }
}

proof fn lemma_sum_bounds(vals: Seq<i32>)
    ensures
        -(vals.len() as int) * 0x8000_0000 <= sum_i32(vals) <= (vals.len() as int) * 0x7FFF_FFFF,
    decreases vals.len(),
{
    if vals.len() == 0 {
    } else {
        lemma_sum_bounds(vals.drop_last());
        lemma_mul_is_distributive_sub_other_way(0x8000_0000, vals.len() as int, 1);
        lemma_mul_is_distributive_sub_other_way(0x7FFF_FFFF, vals.len() as int, 1);
    }
}

} // verus!
