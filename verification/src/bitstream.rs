use vstd::prelude::*;
use vstd::arithmetic::power2::*;
use vstd::arithmetic::div_mod::*;
use vstd::arithmetic::mul::*;

use crate::error::ShnError;

verus! {

// ─── The bit-level model ─────────────────────────────────────────────────────
//
// Shorten packs everything MSB-first: the first bit read from a byte is its
// most significant bit.  The model of a byte source is therefore the sequence
// of its bits in reading order, and every reader operation is specified as a
// function of that sequence.

/// Bit `j` of byte `b`, counting from the most significant bit (`j == 0`).
pub open spec fn byte_bit(b: u8, j: int) -> bool {
    (b >> ((7 - j) as u8)) & 1 == 1
}

/// All bits of a byte sequence in reading order (MSB-first within each byte).
pub open spec fn stream_bits(bytes: Seq<u8>) -> Seq<bool> {
    Seq::new(bytes.len() * 8, |i: int| byte_bit(bytes[i / 8], i % 8))
}

/// The value of a bit string read MSB-first.
pub open spec fn bits_value(s: Seq<bool>) -> nat
    decreases s.len(),
{
    if s.len() == 0 {
        0
    } else {
        2 * bits_value(s.drop_last()) + (if s.last() {
            1nat
        } else {
            0nat
        })
    }
}

/// Index of the first set bit of `s`, or `s.len()` if every bit is clear.
pub open spec fn first_stop(s: Seq<bool>) -> int
    decreases s.len(),
{
    if s.len() == 0 {
        0
    } else if s[0] {
        0
    } else {
        1 + first_stop(s.skip(1))
    }
}

/// A Rice code with parameter `k` is decodable from the front of `s`:
/// a stop bit exists and `k` mantissa bits follow it.
pub open spec fn rice_ok(s: Seq<bool>, k: nat) -> bool {
    first_stop(s) + 1 + k <= s.len()
}

/// The value of the Rice code at the front of `s`: the count `q` of leading
/// zero bits, shifted left by `k`, plus the `k` mantissa bits after the stop.
pub open spec fn rice_val(s: Seq<bool>, k: nat) -> int {
    first_stop(s) * pow2(k) + bits_value(s.subrange(first_stop(s) + 1, first_stop(s) + 1 + k))
}

/// What remains of `s` after the Rice code at its front.
pub open spec fn rice_rest(s: Seq<bool>, k: nat) -> Seq<bool> {
    s.skip(first_stop(s) + 1 + k)
}

/// Zig-zag unfolding: unsigned 0, 1, 2, 3, 4, … to signed 0, −1, 1, −2, 2, …
pub open spec fn zigzag_dec(u: nat) -> int {
    if u % 2 == 0 {
        (u / 2) as int
    } else {
        -((u / 2) as int) - 1
    }
}

/// Zig-zag folding, the inverse of `zigzag_dec`.
pub open spec fn zigzag_enc(n: int) -> nat {
    if n >= 0 {
        (2 * n) as nat
    } else {
        (-2 * n - 1) as nat
    }
}

/// A `ulong` (Shorten's two-level unsigned code) is decodable from the front
/// of `s`: a Rice(2) width field of at most 25, then a Rice code of that
/// width whose value fits in 32 bits.  The width cap is the reader's
/// accumulator limit; a stream needing more signals corruption.
pub open spec fn ulong_ok(s: Seq<bool>) -> bool {
    &&& rice_ok(s, 2)
    &&& rice_val(s, 2) <= 25
    &&& rice_ok(rice_rest(s, 2), rice_val(s, 2) as nat)
    &&& rice_val(rice_rest(s, 2), rice_val(s, 2) as nat) < 0x1_0000_0000
}

/// The value of the `ulong` at the front of `s`.
pub open spec fn ulong_val(s: Seq<bool>) -> int {
    rice_val(rice_rest(s, 2), rice_val(s, 2) as nat)
}

/// What remains of `s` after the `ulong` at its front.
pub open spec fn ulong_rest(s: Seq<bool>) -> Seq<bool> {
    rice_rest(rice_rest(s, 2), rice_val(s, 2) as nat)
}

// ─── Sequences of Rice codes ─────────────────────────────────────────────────

/// `n` consecutive unsigned Rice codes with parameter `k` are decodable from
/// the front of `s`, each with a value that fits in 32 bits.
pub open spec fn urice_seq_ok(s: Seq<bool>, k: nat, n: nat) -> bool
    decreases n,
{
    n == 0 || {
        &&& rice_ok(s, k)
        &&& rice_val(s, k) < 0x1_0000_0000
        &&& urice_seq_ok(rice_rest(s, k), k, (n - 1) as nat)
    }
}

/// The values of `n` consecutive unsigned Rice codes at the front of `s`.
pub open spec fn urice_seq_vals(s: Seq<bool>, k: nat, n: nat) -> Seq<int>
    decreases n,
{
    if n == 0 {
        Seq::empty()
    } else {
        seq![rice_val(s, k)] + urice_seq_vals(rice_rest(s, k), k, (n - 1) as nat)
    }
}

/// What remains of `s` after `n` consecutive unsigned Rice codes.
pub open spec fn urice_seq_rest(s: Seq<bool>, k: nat, n: nat) -> Seq<bool>
    decreases n,
{
    if n == 0 {
        s
    } else {
        urice_seq_rest(rice_rest(s, k), k, (n - 1) as nat)
    }
}

/// The 32-bit signed reinterpretation of a 32-bit unsigned value, as an
/// `as i32` cast computes it.
pub open spec fn i32_of_u32(v: u32) -> i32 {
    if v >= 0x8000_0000 {
        (v - 0x1_0000_0000) as i32
    } else {
        v as i32
    }
}

/// Reinterpret a `u32` as an `i32`, two's-complement style.
pub fn u32_as_i32(v: u32) -> (r: i32)
    ensures
        r == i32_of_u32(v),
{
    if v >= 0x8000_0000 {
        ((v as i64) - 0x1_0000_0000) as i32
    } else {
        v as i32
    }
}

/// A Rice value is never negative.
pub proof fn lemma_rice_val_nonneg(s: Seq<bool>, k: nat)
    ensures
        rice_val(s, k) >= 0,
{
    lemma_first_stop_props(s);
    lemma_pow2_pos(k);
    lemma_mul_nonnegative(first_stop(s), pow2(k) as int);
}

/// A decodable Rice code consumes at least one bit.
pub proof fn lemma_rice_rest_len(s: Seq<bool>, k: nat)
    requires
        rice_ok(s, k),
    ensures
        rice_rest(s, k).len() == s.len() - (first_stop(s) + 1 + k),
        rice_rest(s, k).len() < s.len(),
{
    lemma_first_stop_props(s);
}

/// Reading one more Rice code from a run of them: the run grows at the end.
pub proof fn lemma_urice_seq_snoc(s: Seq<bool>, k: nat, n: nat)
    ensures
        urice_seq_ok(s, k, n + 1) == (urice_seq_ok(s, k, n) && rice_ok(urice_seq_rest(s, k, n), k)
            && rice_val(urice_seq_rest(s, k, n), k) < 0x1_0000_0000),
        urice_seq_ok(s, k, n + 1) ==> urice_seq_vals(s, k, n + 1) == urice_seq_vals(s, k, n).push(
            rice_val(urice_seq_rest(s, k, n), k),
        ),
        urice_seq_ok(s, k, n + 1) ==> urice_seq_rest(s, k, n + 1) == rice_rest(
            urice_seq_rest(s, k, n),
            k,
        ),
    decreases n,
{
    reveal_with_fuel(urice_seq_ok, 3);
    reveal_with_fuel(urice_seq_vals, 3);
    reveal_with_fuel(urice_seq_rest, 3);
    if n == 0 {
        if urice_seq_ok(s, k, 1) {
            assert(urice_seq_vals(s, k, 1) =~= urice_seq_vals(s, k, 0).push(rice_val(s, k)));
        }
    } else {
        lemma_urice_seq_snoc(rice_rest(s, k), k, (n - 1) as nat);
        if urice_seq_ok(s, k, n + 1) {
            assert(urice_seq_vals(s, k, n + 1) =~= urice_seq_vals(s, k, n).push(
                rice_val(urice_seq_rest(s, k, n), k),
            ));
        }
    }
}

/// A decodable run of Rice codes has one value per code and never grows the
/// remaining stream.
pub proof fn lemma_urice_seq_props(s: Seq<bool>, k: nat, n: nat)
    requires
        urice_seq_ok(s, k, n),
    ensures
        urice_seq_vals(s, k, n).len() == n,
        urice_seq_rest(s, k, n).len() <= s.len(),
        n > 0 ==> urice_seq_rest(s, k, n).len() < s.len(),
    decreases n,
{
    if n > 0 {
        lemma_rice_rest_len(s, k);
        lemma_urice_seq_props(rice_rest(s, k), k, (n - 1) as nat);
    }
}

/// A prefix of a decodable run of Rice codes is decodable.
pub proof fn lemma_urice_seq_mono(s: Seq<bool>, k: nat, m: nat, n: nat)
    requires
        m <= n,
        urice_seq_ok(s, k, n),
    ensures
        urice_seq_ok(s, k, m),
    decreases m,
{
    if m > 0 {
        lemma_urice_seq_mono(rice_rest(s, k), k, (m - 1) as nat, (n - 1) as nat);
    }
}

// ─── The Rice encoding, and the laws it obeys ───────────────────────────────

/// `n` clear bits.
pub open spec fn zero_bits(n: nat) -> Seq<bool> {
    Seq::new(n, |i: int| false)
}

/// The `k`-bit MSB-first encoding of `v % pow2(k)`.
pub open spec fn num_bits(v: nat, k: nat) -> Seq<bool>
    decreases k,
{
    if k == 0 {
        Seq::empty()
    } else {
        num_bits(v / 2, (k - 1) as nat).push(v % 2 == 1)
    }
}

/// The Rice encoding of `v` with parameter `k`: `v / pow2(k)` zero bits,
/// a stop bit, then the `k`-bit mantissa `v % pow2(k)`.
pub open spec fn rice_encode(v: nat, k: nat) -> Seq<bool> {
    zero_bits(v / pow2(k)) + seq![true] + num_bits(v % pow2(k), k)
}

pub proof fn lemma_first_stop_props(s: Seq<bool>)
    ensures
        0 <= first_stop(s) <= s.len(),
        first_stop(s) < s.len() ==> s[first_stop(s)],
        forall|j: int| 0 <= j < first_stop(s) ==> !s[j],
    decreases s.len(),
{
    if s.len() == 0 {
    } else if s[0] {
    } else {
        lemma_first_stop_props(s.skip(1));
        assert forall|j: int| 0 <= j < first_stop(s) implies !s[j] by {
            if j > 0 {
                assert(!s.skip(1)[j - 1]);
            }
        }
        if first_stop(s) < s.len() {
            assert(s.skip(1)[first_stop(s) - 1]);
        }
    }
}

/// If the first `q` bits of `s` are clear and bit `q` (if present) is set,
/// the first stop bit is exactly at `q`.
pub proof fn lemma_first_stop_at(s: Seq<bool>, q: int)
    requires
        0 <= q <= s.len(),
        forall|j: int| 0 <= j < q ==> !s[j],
        q < s.len() ==> s[q],
    ensures
        first_stop(s) == q,
    decreases s.len(),
{
    if s.len() == 0 {
    } else if q == 0 {
    } else {
        assert(!s[0]);
        assert forall|j: int| 0 <= j < q - 1 implies !s.skip(1)[j] by {
            assert(!s[j + 1]);
        }
        if q - 1 < s.skip(1).len() {
            assert(s.skip(1)[q - 1] == s[q]);
        }
        lemma_first_stop_at(s.skip(1), q - 1);
    }
}

/// A bit string of length `n` encodes a value below `pow2(n)`.
pub proof fn lemma_bits_value_bound(s: Seq<bool>)
    ensures
        bits_value(s) < pow2(s.len()),
    decreases s.len(),
{
    if s.len() == 0 {
        lemma2_to64();
    } else {
        lemma_bits_value_bound(s.drop_last());
        lemma_pow2_unfold(s.len());
    }
}

pub proof fn lemma_num_bits(v: nat, k: nat)
    ensures
        num_bits(v, k).len() == k,
        v < pow2(k) ==> bits_value(num_bits(v, k)) == v,
    decreases k,
{
    if k == 0 {
        lemma2_to64();
    } else {
        lemma_num_bits(v / 2, (k - 1) as nat);
        lemma_pow2_unfold(k);
        let s = num_bits(v, k);
        assert(s.drop_last() == num_bits(v / 2, (k - 1) as nat));
        if v < pow2(k) {
            lemma_fundamental_div_mod(v as int, 2);
        }
    }
}

/// Rice codes round-trip: decoding the encoding of any value `v`, with any
/// following bits, yields `v` back and leaves exactly those following bits.
pub proof fn lemma_rice_round_trip(v: nat, k: nat, tail: Seq<bool>)
    ensures
        rice_ok(rice_encode(v, k) + tail, k),
        rice_val(rice_encode(v, k) + tail, k) == v,
        rice_rest(rice_encode(v, k) + tail, k) == tail,
{
    lemma_pow2_pos(k);
    let q: int = (v / pow2(k)) as int;
    let m: nat = v % pow2(k);
    lemma_num_bits(m, k);
    lemma_mod_division_less_than_divisor(v as int, pow2(k) as int);
    let s = rice_encode(v, k) + tail;
    assert(s.len() == q + 1 + k + tail.len());
    assert forall|j: int| 0 <= j < q implies !s[j] by {
        assert(s[j] == zero_bits((v / pow2(k)) as nat)[j]);
    }
    assert(s[q]);
    lemma_first_stop_at(s, q);
    assert(s.subrange(q + 1, q + 1 + k) =~= num_bits(m, k));
    lemma_fundamental_div_mod(v as int, pow2(k) as int);
    assert(rice_val(s, k) == q * pow2(k) + m);
    assert(rice_rest(s, k) =~= tail);
}

/// Zig-zag folding inverts zig-zag unfolding: every non-negative integer is
/// recovered from the signed value it unfolds to.
pub proof fn lemma_zigzag_enc_dec(u: nat)
    ensures
        zigzag_enc(zigzag_dec(u)) == u,
{
    lemma_fundamental_div_mod(u as int, 2);
}

/// Zig-zag unfolding inverts zig-zag folding: every integer is recovered
/// from the unsigned value it folds to.  Together with `lemma_zigzag_enc_dec`
/// this makes the zig-zag map a bijection; this lemma adds that unsigned
/// values below `pow2(32)` map exactly onto the 32-bit signed range.
pub proof fn lemma_zigzag_dec_enc(n: int)
    ensures
        zigzag_dec(zigzag_enc(n)) == n,
        forall|u: nat| u < 0x1_0000_0000 ==> -0x8000_0000 <= #[trigger] zigzag_dec(u) < 0x8000_0000,
{
    if n >= 0 {
        lemma_fundamental_div_mod_converse(2 * n, 2, n, 0);
    } else {
        lemma_fundamental_div_mod_converse(-2 * n - 1, 2, -n - 1, 1);
    }
    assert forall|u: nat| u < 0x1_0000_0000 implies -0x8000_0000 <= #[trigger] zigzag_dec(u)
        < 0x8000_0000 by {
        lemma_fundamental_div_mod(u as int, 2);
    }
}

// ─── The reader ──────────────────────────────────────────────────────────────

/// MSB-first bit reader over an in-memory byte source.
///
/// Shorten uses MSB-first bit packing: the first bit read from a byte is the
/// most significant bit.  The reader tracks its position as a byte index and
/// a bit offset within that byte.
pub struct BitReader {
    /// The byte source.
    pub bytes: Vec<u8>,
    /// Index of the byte holding the next unread bit.
    pub pos: usize,
    /// Offset of the next unread bit within that byte (0 = MSB).
    pub bit: u8,
}

impl BitReader {
    /// The reader's position is inside the source, and a partially read byte
    /// is never the one past the end.
    pub open spec fn wf(self) -> bool {
        &&& self.pos <= self.bytes@.len()
        &&& self.bit < 8
        &&& self.pos == self.bytes@.len() ==> self.bit == 0
    }

    /// The reader sits on a byte boundary.
    pub open spec fn aligned(self) -> bool {
        self.bit == 0
    }

    /// All bits not yet consumed, in reading order.
    pub open spec fn bits(self) -> Seq<bool> {
        stream_bits(self.bytes@).skip(8 * self.pos + self.bit)
    }

    /// All whole bytes not yet consumed (meaningful only when aligned).
    pub open spec fn bytes_left(self) -> Seq<u8> {
        self.bytes@.skip(self.pos as int)
    }

    pub fn new(bytes: Vec<u8>) -> (r: BitReader)
        ensures
            r.wf(),
            r.aligned(),
            r.bytes == bytes,
            r.bytes_left() == bytes@,
            r.bits() == stream_bits(bytes@),
    {
        let r = BitReader { bytes, pos: 0, bit: 0 };
        proof {
            assert(r.bytes_left() =~= r.bytes@);
            assert(r.bits() =~= stream_bits(r.bytes@));
        }
        r
    }

    /// Read a single byte, bypassing bit-level state.  Valid only on a byte
    /// boundary; used for the magic and version before bitstream mode begins.
    pub fn read_byte_direct(&mut self) -> (r: Result<u8, ShnError>)
        requires
            old(self).wf(),
            old(self).aligned(),
        ensures
            final(self).wf(),
            final(self).aligned(),
            final(self).bytes == old(self).bytes,
            match r {
                Ok(b) => {
                    &&& old(self).bytes_left().len() >= 1
                    &&& b == old(self).bytes_left()[0]
                    &&& final(self).bytes_left() == old(self).bytes_left().skip(1)
                    &&& final(self).bits() == old(self).bits().skip(8)
                },
                Err(e) => {
                    &&& e == ShnError::Io
                    &&& old(self).bytes_left().len() == 0
                    &&& *final(self) == *old(self)
                },
            },
    {
        if self.pos < self.bytes.len() {
            let b = self.bytes[self.pos];
            self.pos = self.pos + 1;
            proof {
                assert(self.bytes_left() =~= old(self).bytes_left().skip(1));
                assert(self.bits() =~= old(self).bits().skip(8));
            }
            Ok(b)
        } else {
            Err(ShnError::Io)
        }
    }

    /// Read the next bit.
    fn read_bit(&mut self) -> (r: Result<bool, ShnError>)
        requires
            old(self).wf(),
        ensures
            final(self).wf(),
            final(self).bytes == old(self).bytes,
            match r {
                Ok(b) => {
                    &&& old(self).bits().len() >= 1
                    &&& b == old(self).bits()[0]
                    &&& final(self).bits() == old(self).bits().skip(1)
                },
                Err(e) => {
                    &&& e == ShnError::Io
                    &&& old(self).bits().len() == 0
                    &&& *final(self) == *old(self)
                },
            },
    {
        if self.pos < self.bytes.len() {
            let byte = self.bytes[self.pos];
            let sh: u8 = 7 - self.bit;
            let b = ((byte >> sh) & 1) == 1;
            proof {
                let i = 8 * self.pos + self.bit;
                lemma_fundamental_div_mod_converse(i as int, 8, self.pos as int, self.bit as int);
                assert(old(self).bits()[0] == byte_bit(self.bytes@[self.pos as int], self.bit as int));
            }
            if self.bit == 7 {
                self.bit = 0;
                self.pos = self.pos + 1;
            } else {
                self.bit = self.bit + 1;
            }
            proof {
                assert(8 * self.pos + self.bit == 8 * old(self).pos + old(self).bit + 1);
                assert(self.bits() =~= old(self).bits().skip(1));
            }
            Ok(b)
        } else {
            proof {
                assert(old(self).bits().len() == 0);
            }
            Err(ShnError::Io)
        }
    }

    /// Read `n` bits (MSB-first) as an unsigned value.  The cap of 25 bits
    /// per call bounds the result well below `u32` overflow; `n == 0` reads
    /// nothing and returns 0.
    pub fn read_bits(&mut self, n: u32) -> (r: Result<u32, ShnError>)
        requires
            old(self).wf(),
            n <= 25,
        ensures
            final(self).wf(),
            final(self).bytes == old(self).bytes,
            match r {
                Ok(v) => {
                    &&& n <= old(self).bits().len()
                    &&& v == bits_value(old(self).bits().take(n as int))
                    &&& final(self).bits() == old(self).bits().skip(n as int)
                },
                Err(e) => {
                    &&& e == ShnError::Io
                    &&& old(self).bits().len() < n
                },
            },
    {
        let ghost s = old(self).bits();
        let mut v: u32 = 0;
        let mut i: u32 = 0;
        proof {
            lemma2_to64();
            assert(self.bits() =~= s.skip(0));
            assert(s.take(0) =~= Seq::<bool>::empty());
        }
        while i < n
            invariant
                self.wf(),
                self.bytes == old(self).bytes,
                n <= 25,
                i <= n,
                i <= s.len(),
                s == old(self).bits(),
                self.bits() == s.skip(i as int),
                v == bits_value(s.take(i as int)),
                v < pow2(i as nat),
            decreases n - i,
        {
            match self.read_bit() {
                Ok(b) => {
                    proof {
                        lemma2_to64();
                        lemma_pow2_unfold((i + 1) as nat);
                        if (i as nat) < 24 {
                            lemma_pow2_strictly_increases(i as nat, 24);
                        }
                        assert(s.take(i + 1).drop_last() =~= s.take(i as int));
                        assert(s.take(i + 1).last() == s[i as int]);
                        assert(s.skip(i as int)[0] == s[i as int]);
                        assert(s.skip(i as int).skip(1) =~= s.skip(i + 1));
                    }
                    v = v * 2 + (if b {
                        1
                    } else {
                        0
                    });
                    i = i + 1;
                },
                Err(_) => {
                    return Err(ShnError::Io);
                },
            }
        }
        Ok(v)
    }

    /// Read an unsigned Rice-coded value with parameter `k`: leading zero
    /// bits up to a stop bit give the quotient, then `k` mantissa bits.
    /// A code whose value does not fit in 32 bits is treated as corruption.
    pub fn read_unsigned_rice(&mut self, k: u32) -> (r: Result<u32, ShnError>)
        requires
            old(self).wf(),
            k <= 25,
        ensures
            final(self).wf(),
            final(self).bytes == old(self).bytes,
            match r {
                Ok(v) => {
                    &&& rice_ok(old(self).bits(), k as nat)
                    &&& rice_val(old(self).bits(), k as nat) < 0x1_0000_0000
                    &&& v == rice_val(old(self).bits(), k as nat)
                    &&& final(self).bits() == rice_rest(old(self).bits(), k as nat)
                    &&& final(self).bits().len() < old(self).bits().len()
                },
                Err(e) => {
                    &&& e == ShnError::Io
                    &&& !(rice_ok(old(self).bits(), k as nat) && rice_val(old(self).bits(), k as nat)
                        < 0x1_0000_0000)
                },
            },
    {
        let ghost s = old(self).bits();
        let pow2k = pow2_u32(k);
        let cap: u32 = u32::MAX / pow2k;
        proof {
            lemma2_to64();
            lemma_pow2_adds((32 - k) as nat, k as nat);
            lemma_pow2_pos((32 - k) as nat);
            lemma_pow2_pos(k as nat);
            lemma_mul_is_distributive_sub_other_way(
                pow2(k as nat) as int,
                pow2((32 - k) as nat) as int,
                1,
            );
            lemma_fundamental_div_mod_converse(
                0xFFFF_FFFF,
                pow2(k as nat) as int,
                pow2((32 - k) as nat) as int - 1,
                pow2(k as nat) as int - 1,
            );
            assert(cap == pow2((32 - k) as nat) - 1);
            assert((cap + 1) * pow2(k as nat) == 0x1_0000_0000);
        }
        let mut q: u32 = 0;
        proof {
            assert(self.bits() =~= s.skip(0));
        }
        loop
            invariant_except_break
                self.wf(),
                self.bytes == old(self).bytes,
                k <= 25,
                pow2k == pow2(k as nat),
                cap == pow2((32 - k) as nat) - 1,
                (cap + 1) * pow2(k as nat) == 0x1_0000_0000,
                q <= cap,
                q <= s.len(),
                s == old(self).bits(),
                self.bits() == s.skip(q as int),
                forall|j: int| 0 <= j < q ==> !s[j],
            ensures
                self.wf(),
                self.bytes == old(self).bytes,
                k <= 25,
                pow2k == pow2(k as nat),
                cap == pow2((32 - k) as nat) - 1,
                (cap + 1) * pow2(k as nat) == 0x1_0000_0000,
                q <= cap,
                q < s.len(),
                s == old(self).bits(),
                self.bits() == s.skip(q + 1),
                forall|j: int| 0 <= j < q ==> !s[j],
                s[q as int],
            decreases s.len() - q,
        {
            match self.read_bit() {
                Ok(b) => {
                    proof {
                        assert(s.skip(q as int)[0] == s[q as int]);
                        assert(s.skip(q as int).skip(1) =~= s.skip(q + 1));
                    }
                    if b {
                        break ;
                    }
                    if q == cap {
                        // More zero bits than any 32-bit value can carry.
                        proof {
                            lemma_first_stop_props(s);
                            if first_stop(s) <= q {
                                assert(!s[first_stop(s)]);
                            }
                            assert(first_stop(s) >= cap + 1);
                            lemma_mul_inequality(cap + 1, first_stop(s), pow2(k as nat) as int);
                            assert(rice_val(s, k as nat) >= 0x1_0000_0000);
                        }
                        return Err(ShnError::Io);
                    }
                    q = q + 1;
                },
                Err(_) => {
                    proof {
                        lemma_first_stop_at(s, q as int);
                        assert(!rice_ok(s, k as nat));
                    }
                    return Err(ShnError::Io);
                },
            }
        }
        proof {
            lemma_first_stop_at(s, q as int);
        }
        let m = match self.read_bits(k) {
            Ok(m) => m,
            Err(_) => {
                proof {
                    assert(s.skip(q + 1).len() == s.len() - q - 1);
                    assert(!rice_ok(s, k as nat));
                }
                return Err(ShnError::Io);
            },
        };
        proof {
            assert(s.skip(q + 1).take(k as int) =~= s.subrange(q + 1, q + 1 + k));
            lemma_bits_value_bound(s.subrange(q + 1, q + 1 + k));
            lemma_mul_inequality(q as int, cap as int, pow2(k as nat) as int);
            assert(cap * pow2(k as nat) + pow2(k as nat) == 0x1_0000_0000) by {
                lemma_mul_is_distributive_add_other_way(pow2(k as nat) as int, cap as int, 1);
            }
            assert(q * pow2(k as nat) + m < 0x1_0000_0000);
            assert(s.skip(q + 1).skip(k as int) =~= rice_rest(s, k as nat));
        }
        Ok(q * pow2k + m)
    }

    /// Read a signed Rice-coded value: an unsigned Rice code with `k + 1`
    /// mantissa bits, zig-zag unfolded into a signed value.
    pub fn read_signed_rice(&mut self, k: u32) -> (r: Result<i32, ShnError>)
        requires
            old(self).wf(),
            k <= 24,
        ensures
            final(self).wf(),
            final(self).bytes == old(self).bytes,
            match r {
                Ok(v) => {
                    &&& rice_ok(old(self).bits(), (k + 1) as nat)
                    &&& rice_val(old(self).bits(), (k + 1) as nat) < 0x1_0000_0000
                    &&& v == zigzag_dec(rice_val(old(self).bits(), (k + 1) as nat) as nat)
                    &&& final(self).bits() == rice_rest(old(self).bits(), (k + 1) as nat)
                    &&& final(self).bits().len() < old(self).bits().len()
                },
                Err(e) => {
                    &&& e == ShnError::Io
                    &&& !(rice_ok(old(self).bits(), (k + 1) as nat) && rice_val(
                        old(self).bits(),
                        (k + 1) as nat,
                    ) < 0x1_0000_0000)
                },
            },
    {
        let u = match self.read_unsigned_rice(k + 1) {
            Ok(u) => u,
            Err(e) => {
                return Err(e);
            },
        };
        if u % 2 == 0 {
            Ok((u / 2) as i32)
        } else {
            Ok(-((u / 2) as i32) - 1)
        }
    }

    /// Read a `ulong`, Shorten's variable-length unsigned integer: a Rice(2)
    /// width field, then a Rice code with that many mantissa bits.
    pub fn read_ulong(&mut self) -> (r: Result<u32, ShnError>)
        requires
            old(self).wf(),
        ensures
            final(self).wf(),
            final(self).bytes == old(self).bytes,
            match r {
                Ok(v) => {
                    &&& ulong_ok(old(self).bits())
                    &&& v == ulong_val(old(self).bits())
                    &&& final(self).bits() == ulong_rest(old(self).bits())
                    &&& final(self).bits().len() < old(self).bits().len()
                },
                Err(e) => {
                    &&& e == ShnError::Io
                    &&& !ulong_ok(old(self).bits())
                },
            },
    {
        let nbits = match self.read_unsigned_rice(2) {
            Ok(v) => v,
            Err(e) => {
                return Err(e);
            },
        };
        if nbits > 25 {
            return Err(ShnError::Io);
        }
        let v = match self.read_unsigned_rice(nbits) {
            Ok(v) => v,
            Err(e) => {
                return Err(e);
            },
        };
        Ok(v)
    }

    /// Read `n` whole bytes as the next `8 * n` bits, MSB-first.
    pub fn read_bytes(&mut self, n: usize) -> (r: Result<Vec<u8>, ShnError>)
        requires
            old(self).wf(),
        ensures
            final(self).wf(),
            final(self).bytes == old(self).bytes,
            match r {
                Ok(v) => {
                    &&& v@.len() == n
                    &&& 8 * n <= old(self).bits().len()
                    &&& forall|j: int|
                        0 <= j < n ==> v@[j] == bits_value(
                            old(self).bits().subrange(8 * j, 8 * j + 8),
                        )
                    &&& final(self).bits() == old(self).bits().skip(8 * n)
                },
                Err(e) => {
                    &&& e == ShnError::Io
                    &&& old(self).bits().len() < 8 * n
                },
            },
    {
        let ghost s = old(self).bits();
        let mut v: Vec<u8> = Vec::new();
        let mut i: usize = 0;
        proof {
            assert(self.bits() =~= s.skip(0));
        }
        while i < n
            invariant
                self.wf(),
                self.bytes == old(self).bytes,
                i <= n,
                8 * i <= s.len(),
                s == old(self).bits(),
                self.bits() == s.skip(8 * i),
                v@.len() == i,
                forall|j: int| 0 <= j < i ==> v@[j] == bits_value(s.subrange(8 * j, 8 * j + 8)),
            decreases n - i,
        {
            match self.read_bits(8) {
                Ok(b) => {
                    proof {
                        assert(s.skip(8 * i).take(8) =~= s.subrange(8 * i, 8 * i + 8));
                        lemma_bits_value_bound(s.subrange(8 * i, 8 * i + 8));
                        lemma2_to64();
                        assert(s.skip(8 * i).skip(8) =~= s.skip(8 * (i + 1)));
                    }
                    v.push(b as u8);
                    i = i + 1;
                },
                Err(_) => {
                    return Err(ShnError::Io);
                },
            }
        }
        Ok(v)
    }

    /// Borrow the remaining byte source.
    pub fn inner(&self) -> (r: &Vec<u8>)
        ensures
            r == self.bytes,
    {
        &self.bytes
    }

    /// Consume the reader and return the byte source.
    pub fn into_inner(self) -> (r: Vec<u8>)
        ensures
            r == self.bytes,
    {
        self.bytes
    }
}

/// `pow2(k)` as a `u32`.
fn pow2_u32(k: u32) -> (r: u32)
    requires
        k <= 31,
    ensures
        r == pow2(k as nat),
        r >= 1,
{
    let mut p: u32 = 1;
    let mut j: u32 = 0;
    proof {
        lemma2_to64();
    }
    while j < k
        invariant
            j <= k <= 31,
            p == pow2(j as nat),
        decreases k - j,
    {
        proof {
            lemma_pow2_unfold((j + 1) as nat);
            if (j as nat) < 30 {
                lemma_pow2_strictly_increases(j as nat, 30);
            }
            lemma2_to64();
        }
        p = p * 2;
        j = j + 1;
    }
    p
}

/// When the reader is byte-aligned, its remaining bits are exactly the bits
/// of its remaining bytes.
pub proof fn lemma_aligned_bits(r: BitReader)
    requires
        r.wf(),
        r.aligned(),
    ensures
        r.bits() == stream_bits(r.bytes_left()),
{
    let a = r.bits();
    let b = stream_bits(r.bytes_left());
    assert forall|i: int| 0 <= i < b.len() implies a[i] == b[i] by {
        assert((8 * r.pos + i) / 8 == r.pos + i / 8 && (8 * r.pos + i) % 8 == i % 8) by (nonlinear_arith)
            requires
                i >= 0,
                r.pos >= 0,
        ;
        assert(r.bytes@.skip(r.pos as int)[i / 8] == r.bytes@[r.pos + i / 8]);
    }
    assert(a =~= b);
}

} // verus!
