//! Bit writing and boolean coder utilities.

use vstd::prelude::*;
use vstd::arithmetic::power2::*;
use vstd::arithmetic::mul::*;
use vstd::arithmetic::div_mod::*;
use crate::utils::bit_reader_utils::{
    log2_range,
    new_range,
    range_scale,
    lemma_range_scale_is_pow2,
    vp8_log2_range,
    vp8_new_range,
};

verus! {

/// Abstract state of the boolean encoder: its registers and its byte buffer.
/// The allocated size of the buffer is `buf.len()`.
pub struct BitWriterState {
    pub range: int,
    pub value: int,
    pub run: int,
    pub nb_bits: int,
    pub buf: Seq<u8>,
    pub pos: int,
    pub error: int,
}

/// `n` zero bytes.
pub open spec fn zeros(n: int) -> Seq<u8> {
    Seq::new(n as nat, |i: int| 0u8)
}

/// Smallest allocation that the encoder makes for a buffer.
pub open spec fn min_alloc() -> int {
    1024
}

/// Bit `k` of `value`.
pub open spec fn bit_of(value: u32, k: int) -> bool {
    (value / (pow2(k as nat) as u32)) % 2 == 1
}

/// The magnitude of `value` shifted left by one, with the sign in bit 0,
/// truncated to 32 bits.
pub open spec fn signed_code(value: int) -> u32 {
    if value < 0 {
        ((2 * (-value) + 1) % 0x1_0000_0000) as u32
    } else {
        ((2 * value) % 0x1_0000_0000) as u32
    }
}

/// The state of a freshly initialized encoder, before its buffer is sized.
pub open spec fn initial_writer_state() -> BitWriterState {
    BitWriterState {
        range: 254,
        value: 0,
        run: 0,
        nb_bits: -8,
        buf: Seq::empty(),
        pos: 0,
        error: 0,
    }
}

impl BitWriterState {
    /// The encoder's invariant: the range (stored as range - 1) is normalized
    /// into [127, 254], between -8 and 0 bits are pending, the pending value
    /// plus the range fits in `17 + nb_bits` bits and the written bytes fit
    /// in the buffer.
    pub open spec fn wf(self) -> bool {
        &&& 127 <= self.range <= 254
        &&& -8 <= self.nb_bits <= 0
        &&& 0 <= self.value
        &&& self.value + self.range + 1 <= pow2((17 + self.nb_bits) as nat)
        &&& 0 <= self.run <= i32::MAX
        &&& 0 <= self.pos <= self.buf.len() <= isize::MAX
    }

    /// The last written byte can absorb a carry (it is not 0xff).  Every
    /// byte the encoder writes is so; bytes appended from outside may not
    /// be.
    pub open spec fn carry_safe(self) -> bool {
        self.pos > 0 ==> self.buf[self.pos - 1] != 255
    }

    /// Outcome of growing the buffer so that `extra` more bytes fit after
    /// `pos`: the state and whether it succeeded.  The buffer grows to the
    /// largest of twice its size, the needed size and 1024 bytes; the bytes
    /// after `pos` of the new buffer are zero.  A needed size beyond `usize`
    /// or an allocation beyond `isize::MAX` bytes fails and sets `error`.
    pub open spec fn resized(self, extra: int) -> (BitWriterState, bool) {
        let needed = self.pos + extra;
        if needed > usize::MAX {
            (BitWriterState { error: 1, ..self }, false)
        } else if needed <= self.buf.len() {
            (self, true)
        } else {
            let doubled = 2 * (self.buf.len() as int);
            let size1 = if doubled < needed { needed } else { doubled };
            let new_size = if size1 < min_alloc() { min_alloc() } else { size1 };
            if new_size > isize::MAX {
                (BitWriterState { error: 1, ..self }, false)
            } else {
                (BitWriterState { buf: self.buf.take(self.pos) + zeros(new_size - self.pos), ..self }, true)
            }
        }
    }

    /// The encoder's invariant with between 0 and 7 pending bits, as it
    /// stands when bytes are due to be flushed.
    pub open spec fn flushable(self) -> bool {
        &&& 127 <= self.range <= 254
        &&& 0 <= self.nb_bits <= 7
        &&& 0 <= self.value
        &&& self.value + self.range + 1 <= pow2((17 + self.nb_bits) as nat)
        &&& 0 <= self.run < i32::MAX
        &&& 0 <= self.pos <= self.buf.len() <= isize::MAX
    }

    /// The flush does not carry into a written 0xff byte (a carry there
    /// would overflow the byte).
    pub open spec fn flush_ok(self) -> bool {
        let bits = self.value / (pow2((8 + self.nb_bits) as nat) as int);
        bits % 256 != 255 && (bits / 256) % 2 == 1 && self.pos > 0 ==> self.buf[self.pos - 1] != 255
    }

    /// Writes the byte `bits % 256` at the end of the written bytes: bit 8 of
    /// `bits` is a carry into the last written byte, which propagates over
    /// the outstanding run of 0xff bytes and turns each of them into 0x00.
    /// The `run` delayed bytes are written one after the other, then the new
    /// byte; the run is then empty.
    pub open spec fn emitted(self, bits: int) -> BitWriterState {
        let carry = (bits / 256) % 2 == 1;
        let buf1 = if carry && self.pos > 0 {
            self.buf.update(self.pos - 1, (self.buf[self.pos - 1] + 1) as u8)
        } else {
            self.buf
        };
        let filler: u8 = if carry { 0u8 } else { 255u8 };
        let buf2 = Seq::new(
            buf1.len(),
            |i: int| if self.pos <= i < self.pos + self.run { filler } else { buf1[i] },
        );
        let pos2 = self.pos + self.run;
        BitWriterState { buf: buf2.update(pos2, (bits % 256) as u8), pos: pos2 + 1, run: 0, ..self }
    }

    /// Flushes the top byte of the pending value: `bits` is the value shifted
    /// right by `8 + nb_bits`; a byte 0xff is delayed by counting it in `run`,
    /// any other byte is written after the buffer is grown for the run and
    /// the byte (when growing fails, nothing is written).
    pub open spec fn flushed(self) -> BitWriterState {
        let p = pow2((8 + self.nb_bits) as nat) as int;
        let bits = self.value / p;
        let t = BitWriterState { value: self.value % p, nb_bits: self.nb_bits - 8, ..self };
        if bits % 256 != 255 {
            let (r, ok) = t.resized(t.run + 1);
            if !ok {
                r
            } else {
                r.emitted(bits)
            }
        } else {
            BitWriterState { run: t.run + 1, ..t }
        }
    }

    /// The range replaced by `new_range(range)`, the value multiplied by
    /// `scale` and `shift` more pending bits.
    pub open spec fn rescaled(self, shift: int, scale: int) -> BitWriterState {
        BitWriterState {
            range: new_range(self.range),
            value: self.value * scale,
            nb_bits: self.nb_bits + shift,
            ..self
        }
    }

    /// Renormalizes a range below 127: the range becomes `new_range(range)`,
    /// the value is multiplied by `scale`, `shift` bits become pending and, if
    /// bits are pending, a byte is flushed.
    pub open spec fn renormalized(self, shift: int, scale: int) -> BitWriterState {
        if self.range < 127 {
            let s2 = self.rescaled(shift, scale);
            if s2.nb_bits > 0 {
                s2.flushed()
            } else {
                s2
            }
        } else {
            self
        }
    }

    /// The flush of a renormalization, if it happens, does not carry into a
    /// written 0xff byte.
    pub open spec fn renormalize_ok(self, shift: int, scale: int) -> bool {
        self.range < 127 && self.rescaled(shift, scale).nb_bits > 0 ==> self.rescaled(
            shift,
            scale,
        ).flush_ok()
    }

    /// Encoding `bit` with probability `prob / 256` carries into no written
    /// 0xff byte.
    pub open spec fn put_bit_ok(self, bit: bool, prob: int) -> bool {
        let split = (self.range * prob) / 256;
        let s1 = if bit {
            BitWriterState { value: self.value + split + 1, range: self.range - split - 1, ..self }
        } else {
            BitWriterState { range: split, ..self }
        };
        s1.renormalize_ok(log2_range(s1.range), range_scale(s1.range))
    }

    /// Encoding `bit` with probability one half carries into no written 0xff
    /// byte.
    pub open spec fn put_bit_uniform_ok(self, bit: bool) -> bool {
        let split = self.range / 2;
        let s1 = if bit {
            BitWriterState { value: self.value + split + 1, range: self.range - split - 1, ..self }
        } else {
            BitWriterState { range: split, ..self }
        };
        s1.renormalize_ok(1, 2)
    }

    /// Encoding the `n` low bits of `value` carries into no written 0xff
    /// byte.
    pub open spec fn put_bits_ok(self, value: u32, n: nat) -> bool
        decreases n,
    {
        n == 0 || (self.put_bit_uniform_ok(bit_of(value, n - 1)) && self.put_bit_uniform_step(
            bit_of(value, n - 1),
        ).put_bits_ok(value, (n - 1) as nat))
    }

    /// Encoding `value` in sign-magnitude form carries into no written 0xff
    /// byte.
    pub open spec fn put_signed_bits_ok(self, value: int, nb_bits: int) -> bool {
        &&& self.put_bit_uniform_ok(value != 0)
        &&& value != 0 ==> self.put_bit_uniform_step(true).put_bits_ok(
            signed_code(value),
            (nb_bits + 1) as nat,
        )
    }

    /// Finishing carries into no written 0xff byte.
    pub open spec fn finish_ok(self) -> bool {
        let n = (9 - self.nb_bits) as nat;
        &&& self.put_bits_ok(0, n)
        &&& BitWriterState { nb_bits: 0, ..self.put_bits_steps(0, n) }.flush_ok()
    }

    /// Encodes `bit` whose probability of being 0 is `prob / 256`.
    pub open spec fn put_bit_step(self, bit: bool, prob: int) -> BitWriterState {
        let split = (self.range * prob) / 256;
        let s1 = if bit {
            BitWriterState { value: self.value + split + 1, range: self.range - split - 1, ..self }
        } else {
            BitWriterState { range: split, ..self }
        };
        s1.renormalized(log2_range(s1.range), range_scale(s1.range))
    }

    /// Encodes `bit` with probability one half.
    pub open spec fn put_bit_uniform_step(self, bit: bool) -> BitWriterState {
        let split = self.range / 2;
        let s1 = if bit {
            BitWriterState { value: self.value + split + 1, range: self.range - split - 1, ..self }
        } else {
            BitWriterState { range: split, ..self }
        };
        s1.renormalized(1, 2)
    }

    /// Encodes the `n` low bits of `value`, most significant first, each with
    /// probability one half.
    pub open spec fn put_bits_steps(self, value: u32, n: nat) -> BitWriterState
        decreases n,
    {
        if n == 0 {
            self
        } else {
            self.put_bit_uniform_step(bit_of(value, n - 1)).put_bits_steps(value, (n - 1) as nat)
        }
    }

    /// Encodes `value` in sign-magnitude form: a uniform bit telling whether
    /// it is non-zero, then, if it is, `nb_bits + 1` bits of
    /// `signed_code(value)`.
    pub open spec fn put_signed_bits_steps(self, value: int, nb_bits: int) -> BitWriterState {
        let s1 = self.put_bit_uniform_step(value != 0);
        if value == 0 {
            s1
        } else {
            s1.put_bits_steps(signed_code(value), (nb_bits + 1) as nat)
        }
    }

    /// Pads the pending bits with zero bits until a byte is complete and
    /// flushes it.
    pub open spec fn finished(self) -> BitWriterState {
        let s1 = self.put_bits_steps(0, (9 - self.nb_bits) as nat);
        BitWriterState { nb_bits: 0, ..s1 }.flushed()
    }

    /// Copies `data` after the written bytes, growing the buffer; refused
    /// (`false`, state unchanged) unless no bits are pending.
    pub open spec fn appended(self, data: Seq<u8>) -> (BitWriterState, bool) {
        if self.nb_bits != -8 {
            (self, false)
        } else {
            let (r, ok) = self.resized(data.len() as int);
            if !ok {
                (r, false)
            } else {
                (
                    BitWriterState {
                        buf: r.buf.take(r.pos) + data + r.buf.skip(r.pos + data.len()),
                        pos: r.pos + data.len(),
                        ..r
                    },
                    true,
                )
            }
        }
    }
}


/// Shifting a non-negative `i32` right divides by a power of two.
proof fn lemma_i32_shr(v: i32, sh: u32)
    requires
        0 <= v,
        sh < 31,
    ensures
        v >> sh == (v as int) / (pow2(sh as nat) as int),
{
    assert(0 <= v && sh < 31 ==> v >> sh == ((v as u32) >> sh) as i32) by (bit_vector);
    vstd::bits::lemma_u32_shr_is_div(v as u32, sh);
}

/// Shifting a non-negative `i32` left multiplies by a power of two.
proof fn lemma_i32_shl(v: i32, sh: u32)
    requires
        0 <= v,
        sh < 31,
        v * pow2(sh as nat) <= i32::MAX,
    ensures
        v << sh == v * pow2(sh as nat),
{
    vstd::bits::lemma_u32_shl_is_mul(v as u32, sh);
    assert(0 <= v && sh < 31 && ((v as u32) << sh) <= 0x7fff_ffff ==> (v << sh) == ((v
        as u32) << sh) as i32) by (bit_vector);
}

/// A flush keeps the invariant: the value left is below `2^(8 + nb_bits)`.
pub proof fn lemma_flushed_wf(s: BitWriterState)
    requires
        s.flushable(),
    ensures
        s.flushed().wf(),
        s.flushed().range == s.range,
        s.flushed().nb_bits == s.nb_bits - 8,
        s.flushed().run <= s.run + 1,
        s.carry_safe() ==> s.flush_ok() && s.flushed().carry_safe(),
{
    let sh = (8 + s.nb_bits) as nat;
    let p = pow2(sh) as int;
    lemma_pow2_pos(sh);
    lemma2_to64();
    lemma_pow2_strictly_increases(8, sh + 1);
    if sh > 8 {
        lemma_pow2_strictly_increases(8, sh);
    }
    lemma_pow2_unfold(sh + 1);
    lemma_mod_bound(s.value, p);
    assert((17 + s.nb_bits - 8) as nat == sh + 1);
    let bits = s.value / p;
    let t = BitWriterState { value: s.value % p, nb_bits: s.nb_bits - 8, ..s };
    if bits % 256 != 255 {
        let (r, ok) = t.resized(t.run + 1);
        if ok {
            let e = r.emitted(bits);
            assert(e.buf[e.pos - 1] == (bits % 256) as u8);
        }
    }
}

/// Under the invariant the value and the range fit in 17 bits.
proof fn lemma_wf_bound(s: BitWriterState)
    requires
        s.wf(),
    ensures
        s.value + s.range + 1 <= 0x2_0000,
{
    lemma2_to64();
    if s.nb_bits < 0 {
        lemma_pow2_strictly_increases((17 + s.nb_bits) as nat, 17);
    }
}

/// Renormalizing keeps the invariant: the value and the range are scaled
/// together by `2^shift` while `shift` more bits become pending.
proof fn lemma_renormalized_wf(s1: BitWriterState)
    requires
        0 <= s1.range <= 254,
        -8 <= s1.nb_bits <= 0,
        0 <= s1.value,
        s1.value + s1.range + 1 <= pow2((17 + s1.nb_bits) as nat),
        0 <= s1.run < i32::MAX,
        0 <= s1.pos <= s1.buf.len() <= isize::MAX,
    ensures
        s1.renormalized(log2_range(s1.range), range_scale(s1.range)).wf(),
        s1.carry_safe() ==> s1.renormalize_ok(log2_range(s1.range), range_scale(s1.range))
            && s1.renormalized(log2_range(s1.range), range_scale(s1.range)).carry_safe(),
        s1.renormalized(log2_range(s1.range), range_scale(s1.range)).run <= s1.run + 1,
        s1.range < 127 ==> s1.value * range_scale(s1.range) <= 0x100_0000,
        s1.range < 127 && s1.nb_bits + log2_range(s1.range) > 0 ==> s1.rescaled(
            log2_range(s1.range),
            range_scale(s1.range),
        ).flushable(),
{
    let r = s1.range;
    let shift = log2_range(r);
    let scale = range_scale(r);
    if r < 127 {
        lemma_range_scale_is_pow2(r);
        lemma_pow2_adds((17 + s1.nb_bits) as nat, shift as nat);
        assert((17 + s1.nb_bits) as nat + shift as nat == (17 + s1.nb_bits + shift) as nat);
        lemma_mul_inequality(
            s1.value + r + 1,
            pow2((17 + s1.nb_bits) as nat) as int,
            scale,
        );
        lemma_mul_is_distributive_add_other_way(scale, s1.value, r + 1);
        let s2 = s1.rescaled(shift, scale);
        assert(s2.value + s2.range + 1 == (s1.value + r + 1) * scale);
        assert(s2.value + s2.range + 1 <= pow2((17 + s2.nb_bits) as nat));
        assert(127 <= s2.range <= 254);
        lemma_mul_nonnegative(s1.value, scale);
        lemma2_to64();
        if s1.nb_bits + shift < 0 {
            lemma_pow2_strictly_increases((17 + s1.nb_bits) as nat, 17);
        }
        lemma_mul_inequality(s1.value, pow2(17) as int, scale);
        lemma_mul_inequality(scale, 128, pow2(17) as int);
        if s2.nb_bits > 0 {
            lemma_flushed_wf(s2);
        }
    }
}

/// Boolean writer (VP8 range encoder).
pub struct VP8BitWriter {
    /// range - 1
    pub range_: i32,
    pub value_: i32,
    /// number of outstanding 0xff bytes
    pub run_: i32,
    /// number of pending bits
    pub nb_bits_: i32,
    /// internal buffer, `max_pos_` bytes long
    pub buf_: Vec<u8>,
    pub pos_: usize,
    pub max_pos_: usize,
    /// 1 in case of error
    pub error_: i32,
}

impl View for VP8BitWriter {
    type V = BitWriterState;

    open spec fn view(&self) -> BitWriterState {
        BitWriterState {
            range: self.range_ as int,
            value: self.value_ as int,
            run: self.run_ as int,
            nb_bits: self.nb_bits_ as int,
            buf: self.buf_@,
            pos: self.pos_ as int,
            error: self.error_ as int,
        }
    }
}

impl Default for VP8BitWriter {
    fn default() -> (w: Self)
        ensures
            w.range_ == 0 && w.value_ == 0 && w.run_ == 0 && w.nb_bits_ == 0,
            w.buf_@ == Seq::<u8>::empty() && w.pos_ == 0 && w.max_pos_ == 0 && w.error_ == 0,
    {
        VP8BitWriter {
            range_: 0,
            value_: 0,
            run_: 0,
            nb_bits_: 0,
            buf_: Vec::new(),
            pos_: 0,
            max_pos_: 0,
            error_: 0,
        }
    }
}

impl VP8BitWriter {
    /// The writer is usable: its view keeps the encoder's invariant and
    /// `max_pos_` is the buffer's size.
    pub open spec fn wf(&self) -> bool {
        &&& self.max_pos_ == self.buf_.len()
        &&& self@.wf()
    }

    /// Flushes the top byte of the pending value to the buffer.
    fn flush(&mut self)
        requires
            old(self).max_pos_ == old(self).buf_.len(),
            old(self)@.flushable(),
            old(self)@.flush_ok(),
        ensures
            final(self).wf(),
            final(self)@ == old(self)@.flushed(),
    {
        let ghost s0 = self@;
        let s: i32 = 8 + self.nb_bits_;
        proof {
            lemma_i32_shr(self.value_, s as u32);
            lemma_pow2_pos(s as nat);
            lemma_fundamental_div_mod(self.value_ as int, pow2(s as nat) as int);
            lemma_mul_is_commutative(self.value_ as int / pow2(s as nat) as int, pow2(s as nat) as int);
            lemma_div_pos_is_pos(self.value_ as int, pow2(s as nat) as int);
            lemma_mod_bound(self.value_ as int, pow2(s as nat) as int);
        }
        let bits: i32 = self.value_ >> (s as u32);
        proof {
            lemma_i32_shl(bits, s as u32);
            lemma_flushed_wf(s0);
        }
        self.value_ = self.value_ - (bits << (s as u32));
        self.nb_bits_ = self.nb_bits_ - 8;
        assert(self.value_ == s0.value % (pow2((8 + s0.nb_bits) as nat) as int));
        assert(0 <= bits ==> ((bits & 0xff) == bits % 256 && ((bits & 0x100) != 0) == ((bits / 256) % 2 == 1))) by (bit_vector);
        if (bits & 0xff) != 0xff {
            let pos: usize = self.pos_;
            if !self.resize(self.run_ as usize + 1) {
                return;
            }
            let ghost r = self@;
            if (bits & 0x100) != 0 {
                if pos > 0 {
                    let b: u8 = self.buf_[pos - 1];
                    self.buf_.set(pos - 1, b + 1);
                }
            }
            let ghost b1 = self.buf_@;
            let ghost carry = (bits / 256) % 2 == 1;
            assert(b1 == if carry && r.pos > 0 {
                r.buf.update(r.pos - 1, (r.buf[r.pos - 1] + 1) as u8)
            } else {
                r.buf
            });
            if self.run_ > 0 {
                let value: u8 = if (bits & 0x100) != 0 { 0x00 } else { 0xff };
                let run: usize = self.run_ as usize;
                let mut k: usize = 0;
                while k < run
                    invariant
                        0 <= k <= run,
                        run == r.run,
                        self.run_ == r.run,
                        self.range_ == r.range,
                        self.value_ == r.value,
                        self.nb_bits_ == r.nb_bits,
                        self.error_ == r.error,
                        self.pos_ == pos,
                        pos + run + 1 <= self.buf_.len(),
                        self.max_pos_ == self.buf_.len(),
                        b1.len() == self.buf_.len(),
                        self.buf_@ == Seq::new(
                            b1.len(),
                            |i: int| if pos <= i < pos + k { value } else { b1[i] },
                        ),
                    decreases run - k,
                {
                    self.buf_.set(pos + k, value);
                    k = k + 1;
                    assert(self.buf_@ =~= Seq::new(
                        b1.len(),
                        |i: int| if pos <= i < pos + k { value } else { b1[i] },
                    ));
                }
                self.pos_ = pos + run;
                self.run_ = 0;
            } else {
                assert(self.buf_@ =~= Seq::new(
                    b1.len(),
                    |i: int| if pos <= i < pos + r.run { 255u8 } else { b1[i] },
                ));
            }
            self.buf_.set(self.pos_, (bits & 0xff) as u8);
            self.pos_ = self.pos_ + 1;
            assert(self.buf_@ =~= r.emitted(bits as int).buf);
            assert(self.pos_ == r.emitted(bits as int).pos);
            assert(self@ == r.emitted(bits as int));
        } else {
            self.run_ = self.run_ + 1;
        }
    }

    /// Puts `bit` with probability `prob / 256` of being 0, and returns `bit`.
    pub fn put_bit(&mut self, bit: i32, prob: i32) -> (r: i32)
        requires
            old(self).wf(),
            old(self).run_ < i32::MAX,
            0 <= prob,
            bit != 0 ==> prob <= 255,
            bit == 0 ==> (old(self).range_ * prob) / 256 <= old(self).range_,
            old(self)@.put_bit_ok(bit != 0, prob as int),
        ensures
            r == bit,
            final(self).wf(),
            old(self)@.carry_safe() ==> final(self)@.carry_safe(),
            final(self)@ == old(self)@.put_bit_step(bit != 0, prob as int),
            final(self).run_ <= old(self).run_ + 1,
    {
        proof {
            lemma_wf_bound(self@);
        }
        assert(self.range_ * prob <= 254 * 256 + 255) by (nonlinear_arith)
            requires
                0 <= self.range_ <= 254,
                0 <= prob,
                bit != 0 ==> prob <= 255,
                bit == 0 ==> (self.range_ * prob) / 256 <= self.range_,
        ;
        let product: u32 = self.range_ as u32 * prob as u32;
        assert(product >> 8 == product / 256) by (bit_vector);
        let split: i32 = (product >> 8) as i32;
        assert(split <= self.range_ - 1 || bit == 0) by (nonlinear_arith)
            requires
                split == (self.range_ * prob) / 256,
                127 <= self.range_,
                bit != 0 ==> prob <= 255,
        ;
        if bit != 0 {
            self.value_ = self.value_ + split + 1;
            self.range_ = self.range_ - split - 1;
        } else {
            self.range_ = split;
        }
        proof {
            lemma_renormalized_wf(self@);
        }
        self.renormalize();
        bit
    }

    /// Puts `bit` with probability one half, and returns `bit`.
    pub fn put_bit_uniform(&mut self, bit: i32) -> (r: i32)
        requires
            old(self).wf(),
            old(self).run_ < i32::MAX,
            old(self)@.put_bit_uniform_ok(bit != 0),
        ensures
            r == bit,
            final(self).wf(),
            old(self)@.carry_safe() ==> final(self)@.carry_safe(),
            final(self)@ == old(self)@.put_bit_uniform_step(bit != 0),
            final(self).run_ <= old(self).run_ + 1,
    {
        proof {
            lemma_wf_bound(self@);
        }
        let range: i32 = self.range_;
        let split: i32 = range >> 1u32;
        assert(0 <= range ==> range >> 1u32 == range / 2) by (bit_vector);
        if bit != 0 {
            self.value_ = self.value_ + split + 1;
            self.range_ = self.range_ - split - 1;
        } else {
            self.range_ = split;
        }
        proof {
            lemma_renormalized_wf(self@);
        }
        self.renormalize();
        bit
    }

    /// Puts the `nb_bits` low bits of `value`, most significant first.
    pub fn put_bits(&mut self, value: u32, nb_bits: i32)
        requires
            old(self).wf(),
            0 < nb_bits < 32,
            old(self).run_ + nb_bits <= i32::MAX,
            old(self)@.put_bits_ok(value, nb_bits as nat),
        ensures
            final(self).wf(),
            old(self)@.carry_safe() ==> final(self)@.carry_safe(),
            final(self)@ == old(self)@.put_bits_steps(value, nb_bits as nat),
            final(self).run_ <= old(self).run_ + nb_bits,
    {
        let ghost s0 = self@;
        let ghost run0 = self.run_;
        let mut mask: u32 = 1u32 << ((nb_bits - 1) as u32);
        assert(((nb_bits - 1) as u32) < 32 ==> 1u32 << ((nb_bits - 1) as u32) != 0) by (bit_vector);
        let ghost mut k: int = nb_bits as int;
        while mask != 0
            invariant
                0 <= k <= nb_bits < 32,
                k > 0 ==> mask == 1u32 << ((k - 1) as u32),
                k == 0 ==> mask == 0,
                self.wf(),
                s0.put_bits_steps(value, nb_bits as nat) == self@.put_bits_steps(value, k as nat),
                self@.put_bits_ok(value, k as nat),
                s0.carry_safe() ==> self@.carry_safe(),
                self.run_ + k <= run0 + nb_bits <= i32::MAX,
                (mask == 0) == (k == 0),
            decreases k,
        {
            let ghost kk: u32 = (k - 1) as u32;
            proof {
                vstd::bits::lemma_u32_shr_is_div(value, kk);
                lemma_pow2_pos(kk as nat);
                vstd::bits::lemma_u32_pow2_no_overflow(kk as nat);
            }
            assert(kk < 32 && mask == 1u32 << kk ==> ((value & mask) != 0) == ((value >> kk) % 2 == 1)) by (bit_vector);
            self.put_bit_uniform(if (value & mask) != 0 { 1 } else { 0 });
            assert(kk < 32 && mask == 1u32 << kk ==> (kk > 0 ==> mask >> 1u32 == 1u32 << ((kk
                - 1) as u32) && mask >> 1u32 != 0) && (kk == 0 ==> mask >> 1u32 == 0))
                by (bit_vector);
            mask = mask >> 1u32;
            proof {
                k = k - 1;
            }
        }
    }

    /// Puts a uniform bit telling whether `value` is non-zero and, if it is,
    /// its magnitude and sign in `nb_bits + 1` bits.
    pub fn put_signed_bits(&mut self, value: i32, nb_bits: i32)
        requires
            old(self).wf(),
            old(self).run_ < i32::MAX,
            value != 0 ==> {
                &&& value != i32::MIN
                &&& 0 <= nb_bits <= 30
                &&& old(self).run_ + 1 + nb_bits + 1 <= i32::MAX
            },
            old(self)@.put_signed_bits_ok(value as int, nb_bits as int),
        ensures
            final(self).wf(),
            old(self)@.carry_safe() ==> final(self)@.carry_safe(),
            final(self)@ == old(self)@.put_signed_bits_steps(value as int, nb_bits as int),
    {
        if self.put_bit_uniform(if value != 0 { 1 } else { 0 }) == 0 {
            return;
        }
        if value < 0 {
            let code: u32 = (((-value) as u32) << 1u32) | 1;
            assert(value < 0 && value != i32::MIN ==> (((-value) as u32) << 1u32) | 1 == ((2
                * (-value) + 1) % 0x1_0000_0000) as u32) by (bit_vector);
            self.put_bits(code, nb_bits + 1);
        } else {
            let code: u32 = (value as u32) << 1u32;
            assert(value >= 0 ==> (value as u32) << 1u32 == ((2 * value) % 0x1_0000_0000) as u32)
                by (bit_vector);
            self.put_bits(code, nb_bits + 1);
        }
    }

    /// Initializes the writer with a buffer of at least `expected_size`
    /// bytes (none when it is 0); returns `false` and sets `error_` when the
    /// buffer cannot be allocated.
    pub fn init(&mut self, expected_size: usize) -> (ok: bool)
        ensures
            final(self).wf(),
            (final(self)@, ok) == initial_writer_state().resized(expected_size as int),
    {
        self.range_ = 255 - 1;
        self.value_ = 0;
        self.run_ = 0;
        self.nb_bits_ = -8;
        self.pos_ = 0;
        self.max_pos_ = 0;
        self.error_ = 0;
        self.buf_ = Vec::new();
        proof {
            lemma2_to64();
        }
        if expected_size > 0 {
            self.resize(expected_size)
        } else {
            true
        }
    }

    /// Pads the pending bits with zeros, flushes them, and returns the
    /// bytes written.
    pub fn finish(&mut self) -> (out: Vec<u8>)
        requires
            old(self).wf(),
            old(self).run_ + 18 <= i32::MAX,
            old(self)@.finish_ok(),
        ensures
            final(self).wf(),
            final(self)@ == old(self)@.finished(),
            final(self).nb_bits_ == -8,
            out@ == final(self).buf_@.take(final(self).pos_ as int),
    {
        let n: i32 = 9 - self.nb_bits_;
        self.put_bits(0, n);
        self.nb_bits_ = 0;
        proof {
            lemma2_to64();
            lemma_wf_bound(self@);
        }
        self.flush();
        let mut out: Vec<u8> = Vec::new();
        let mut i: usize = 0;
        while i < self.pos_
            invariant
                i <= self.pos_ <= self.buf_.len(),
                out@ == self.buf_@.take(i as int),
            decreases self.pos_ - i,
        {
            out.push(self.buf_[i]);
            i = i + 1;
        }
        out
    }

    /// Appends `data` to the written bytes; refused unless no bits are
    /// pending (right after `init` or `finish`).  Only the buffer's layout
    /// is required; the encoder's invariant survives unless the appended
    /// bytes end in 0xff.
    pub fn append(&mut self, data: &[u8]) -> (ok: bool)
        requires
            old(self).max_pos_ == old(self).buf_.len(),
            old(self).pos_ <= old(self).max_pos_ <= isize::MAX,
            old(self).pos_ + data@.len() <= u64::MAX,
        ensures
            (final(self)@, ok) == old(self)@.appended(data@),
            final(self).max_pos_ == final(self).buf_.len(),
            final(self).pos_ <= final(self).max_pos_ <= isize::MAX,
            old(self).wf() ==> final(self).wf(),
            old(self)@.carry_safe() && (data@.len() == 0 || data@.last() != 255) ==> final(self)@.carry_safe(),
    {
        if self.nb_bits_ != -8 {
            return false;
        }
        if !self.resize(data.len()) {
            return false;
        }
        let ghost r = self@;
        let mut i: usize = 0;
        while i < data.len()
            invariant
                i <= data@.len(),
                r.pos + data@.len() <= r.buf.len(),
                self.pos_ == r.pos,
                self.max_pos_ == self.buf_.len() == r.buf.len(),
                self.range_ == r.range && self.value_ == r.value && self.run_ == r.run,
                self.nb_bits_ == r.nb_bits && self.error_ == r.error,
                self.buf_@ == r.buf.take(r.pos) + data@.take(i as int) + r.buf.skip(r.pos + i),
            decreases data@.len() - i,
        {
            self.buf_.set(self.pos_ + i, data[i]);
            i = i + 1;
            assert(self.buf_@ =~= r.buf.take(r.pos) + data@.take(i as int) + r.buf.skip(r.pos + i));
        }
        self.pos_ = self.pos_ + data.len();
        assert(data@.take(data@.len() as int) == data@);
        true
    }

    /// Releases the buffer and resets the writer to its default state.
    pub fn wipe_out(&mut self)
        ensures
            final(self).range_ == 0 && final(self).value_ == 0 && final(self).run_ == 0,
            final(self).nb_bits_ == 0 && final(self).buf_@ == Seq::<u8>::empty(),
            final(self).pos_ == 0 && final(self).max_pos_ == 0 && final(self).error_ == 0,
    {
        *self = VP8BitWriter::default();
    }

    /// Brings a range below 127 back into [127, 254] (by table lookup),
    /// scaling the value accordingly, and flushes a byte when bits are due.
    fn renormalize(&mut self)
        requires
            old(self).max_pos_ == old(self).buf_.len(),
            0 <= old(self).range_ <= 254,
            -8 <= old(self).nb_bits_ <= 0,
            0 <= old(self).value_,
            old(self).value_ + old(self).range_ + 1 <= pow2((17 + old(self).nb_bits_) as nat),
            0 <= old(self).run_ < i32::MAX,
            old(self).pos_ <= old(self).buf_.len() <= isize::MAX,
            old(self)@.renormalize_ok(
                log2_range(old(self).range_ as int),
                range_scale(old(self).range_ as int),
            ),
        ensures
            final(self).wf(),
            old(self)@.carry_safe() ==> final(self)@.carry_safe(),
            final(self)@ == old(self)@.renormalized(
                log2_range(old(self).range_ as int),
                range_scale(old(self).range_ as int),
            ),
    {
        proof {
            lemma_renormalized_wf(self@);
        }
        if self.range_ < 127 {
            let shift: u8 = vp8_log2_range(self.range_ as u32);
            proof {
                lemma_range_scale_is_pow2(self.range_ as int);
                lemma_i32_shl(self.value_, shift as u32);
            }
            self.range_ = vp8_new_range(self.range_ as u32) as i32;
            self.value_ = self.value_ << (shift as u32);
            self.nb_bits_ = self.nb_bits_ + shift as i32;
            if self.nb_bits_ > 0 {
                self.flush();
            }
        }
    }

    /// Resizes the internal buffer so that `extra_size` more bytes fit.
    fn resize(&mut self, extra_size: usize) -> (ok: bool)
        requires
            old(self).max_pos_ == old(self).buf_.len(),
            old(self).pos_ <= old(self).max_pos_ <= isize::MAX,
            old(self).pos_ + extra_size <= u64::MAX,
        ensures
            final(self).max_pos_ == final(self).buf_.len(),
            (final(self)@, ok) == old(self)@.resized(extra_size as int),
            final(self).range_ == old(self).range_,
            final(self).value_ == old(self).value_,
            final(self).run_ == old(self).run_,
            final(self).nb_bits_ == old(self).nb_bits_,
            final(self).pos_ == old(self).pos_,
    {
        let needed_size_64b: u64 = self.pos_ as u64 + extra_size as u64;
        let needed_size: usize = #[verifier::truncate] (needed_size_64b as usize);
        if needed_size_64b != needed_size as u64 {
            self.error_ = 1;
            return false;
        }
        if needed_size <= self.max_pos_ {
            return true;
        }
        let mut new_size: usize = 2 * self.max_pos_;
        if new_size < needed_size {
            new_size = needed_size;
        }
        if new_size < 1024 {
            new_size = 1024;
        }
        if new_size > isize::MAX as usize {
            self.error_ = 1;
            return false;
        }
        let mut new_buf: Vec<u8> = Vec::new();
        let mut i: usize = 0;
        while i < self.pos_
            invariant
                i <= self.pos_ <= self.buf_.len(),
                new_buf@ == self.buf_@.take(i as int),
            decreases self.pos_ - i,
        {
            new_buf.push(self.buf_[i]);
            i = i + 1;
        }
        while i < new_size
            invariant
                self.pos_ <= i <= new_size,
                new_buf@ == self.buf_@.take(self.pos_ as int) + zeros(i - self.pos_),
            decreases new_size - i,
        {
            new_buf.push(0u8);
            i = i + 1;
            assert(new_buf@ =~= self.buf_@.take(self.pos_ as int) + zeros(i - self.pos_));
        }
        self.buf_ = new_buf;
        self.max_pos_ = new_size;
        true
    }
}


/// A uniform bit keeps the invariant and adds at most one to the run.
pub proof fn lemma_uniform_step_wf(s: BitWriterState, bit: bool)
    requires
        s.wf(),
        s.run < i32::MAX,
    ensures
        s.put_bit_uniform_step(bit).wf(),
        s.put_bit_uniform_step(bit).run <= s.run + 1,
        s.carry_safe() ==> s.put_bit_uniform_ok(bit) && s.put_bit_uniform_step(bit).carry_safe(),
{
    let split = s.range / 2;
    let s1 = if bit {
        BitWriterState { value: s.value + split + 1, range: s.range - split - 1, ..s }
    } else {
        BitWriterState { range: split, ..s }
    };
    lemma_renormalized_wf(s1);
}

/// Encoding `n` uniform bits keeps the invariant and adds at most `n` to
/// the run.
pub proof fn lemma_put_bits_steps_wf(s: BitWriterState, value: u32, n: nat)
    requires
        s.wf(),
        s.run + n <= i32::MAX,
    ensures
        s.put_bits_steps(value, n).wf(),
        s.put_bits_steps(value, n).run <= s.run + n,
    decreases n,
{
    if n > 0 {
        let s1 = s.put_bit_uniform_step(bit_of(value, n - 1));
        lemma_uniform_step_wf(s, bit_of(value, n - 1));
        lemma_put_bits_steps_wf(s1, value, (n - 1) as nat);
    }
}

/// Uniform bits from a last byte that can take a carry carry safely and
/// leave such a last byte.
pub proof fn lemma_carry_safe_put_bits(s: BitWriterState, value: u32, n: nat)
    requires
        s.wf(),
        s.carry_safe(),
        s.run + n <= i32::MAX,
    ensures
        s.put_bits_ok(value, n),
        s.put_bits_steps(value, n).carry_safe(),
    decreases n,
{
    if n > 0 {
        let b = bit_of(value, n - 1);
        lemma_uniform_step_wf(s, b);
        lemma_carry_safe_put_bits(s.put_bit_uniform_step(b), value, (n - 1) as nat);
    }
}

/// Finishing leaves a well-formed encoder with no pending bits; from a last
/// byte that can take a carry, it carries safely and leaves such a byte.
pub proof fn lemma_finished_pending(s: BitWriterState)
    requires
        s.wf(),
        s.run + 18 <= i32::MAX,
    ensures
        s.finished().wf(),
        s.finished().nb_bits == -8,
        s.carry_safe() ==> s.finish_ok() && s.finished().carry_safe(),
{
    let n = (9 - s.nb_bits) as nat;
    lemma_put_bits_steps_wf(s, 0, n);
    if s.carry_safe() {
        lemma_carry_safe_put_bits(s, 0, n);
    }
    let s1 = s.put_bits_steps(0, n);
    lemma_wf_bound(s1);
    lemma2_to64();
    let t = BitWriterState { nb_bits: 0, ..s1 };
    lemma_flushed_wf(t);
}

/// After `finish` no bits are pending, so `append` is accepted whenever the
/// buffer can grow for the data.
pub proof fn lemma_append_after_finish(s: BitWriterState, data: Seq<u8>)
    requires
        s.wf(),
        s.run + 18 <= i32::MAX,
    ensures
        s.finished().appended(data).1 == s.finished().resized(data.len() as int).1,
{
    lemma_finished_pending(s);
}

/// Renormalizing never moves the write position back, never shrinks the
/// buffer and never clears an error.
proof fn lemma_renormalized_grows(s1: BitWriterState, shift: int, scale: int)
    requires
        0 <= s1.run,
        0 <= s1.pos <= s1.buf.len(),
    ensures
        s1.renormalized(shift, scale).pos >= s1.pos,
        s1.renormalized(shift, scale).buf.len() >= s1.buf.len(),
        s1.error != 0 ==> s1.renormalized(shift, scale).error != 0,
{
    if s1.range < 127 {
        let s2 = s1.rescaled(shift, scale);
        if s2.nb_bits > 0 {
            let p = pow2((8 + s2.nb_bits) as nat) as int;
            let bits = s2.value / p;
            let t = BitWriterState { value: s2.value % p, nb_bits: s2.nb_bits - 8, ..s2 };
            if bits % 256 != 255 {
                let (r, ok) = t.resized(t.run + 1);
                assert(r.buf.len() >= t.buf.len());
                if ok {
                    assert(r.emitted(bits).buf.len() == r.buf.len());
                }
            }
        }
    }
}

/// Putting a bit with a probability in [0, 255] keeps the encoder's
/// invariant (among others the range stays in [127, 254] and between -8
/// and 0 bits stay pending), never moves the write position back, never
/// shrinks the buffer and never clears an error; from a last byte that can
/// take a carry, it carries safely and leaves such a last byte.
pub proof fn lemma_put_bit_keeps_invariant(s: BitWriterState, bit: bool, prob: int)
    requires
        s.wf(),
        s.run < i32::MAX,
        0 <= prob <= 255,
    ensures
        s.put_bit_step(bit, prob).wf(),
        s.put_bit_step(bit, prob).pos >= s.pos,
        s.put_bit_step(bit, prob).buf.len() >= s.buf.len(),
        s.error != 0 ==> s.put_bit_step(bit, prob).error != 0,
        s.carry_safe() ==> s.put_bit_ok(bit, prob) && s.put_bit_step(bit, prob).carry_safe(),
        s.put_bit_step(bit, prob).run <= s.run + 1,
{
    let split = (s.range * prob) / 256;
    assert(0 <= split <= s.range - 1) by (nonlinear_arith)
        requires
            split == (s.range * prob) / 256,
            127 <= s.range <= 254,
            0 <= prob <= 255,
    ;
    let s1 = if bit {
        BitWriterState { value: s.value + split + 1, range: s.range - split - 1, ..s }
    } else {
        BitWriterState { range: split, ..s }
    };
    lemma_renormalized_wf(s1);
    lemma_renormalized_grows(s1, log2_range(s1.range), range_scale(s1.range));
}

/// Putting a bit with probability one half is putting it with probability
/// 128/256.
pub proof fn lemma_uniform_is_half_probability(s: BitWriterState, bit: bool)
    requires
        s.wf(),
    ensures
        s.put_bit_uniform_step(bit) == s.put_bit_step(bit, 128),
{
    assert((s.range * 128) / 256 == s.range / 2);
}

/// Bit `k` of `v` for `k < n` only depends on `v % 2^n`.
proof fn lemma_bit_of_low(v1: u32, v2: u32, n: nat, k: nat)
    requires
        k < n <= 32,
        (v1 as int) % (pow2(n) as int) == (v2 as int) % (pow2(n) as int),
    ensures
        bit_of(v1, k as int) == bit_of(v2, k as int),
        (v1 as int) % (pow2(k) as int) == (v2 as int) % (pow2(k) as int),
{
    lemma_pow2_pos(k);
    lemma_pow2_pos((k + 1) as nat);
    lemma_pow2_strictly_increases(k, 32);
    lemma2_to64();
    lemma_pow2_unfold((k + 1) as nat);
    let pk = pow2(k) as int;
    if k + 1 < n {
        lemma_pow2_adds((k + 1) as nat, (n - k - 1) as nat);
        lemma_pow2_pos((n - k - 1) as nat);
        lemma_mod_mod(v1 as int, pow2((k + 1) as nat) as int, pow2((n - k - 1) as nat) as int);
        lemma_mod_mod(v2 as int, pow2((k + 1) as nat) as int, pow2((n - k - 1) as nat) as int);
    }
    assert((v1 as int) % (pk * 2) == (v2 as int) % (pk * 2));
    lemma_mod_mod(v1 as int, pk, 2);
    lemma_mod_mod(v2 as int, pk, 2);
    lemma_mod_breakdown(v1 as int, pk, 2);
    lemma_mod_breakdown(v2 as int, pk, 2);
    assert((pow2(k) as u32) as int == pk);
}

/// Putting the `n` low bits of a value only reads those bits: values that
/// agree modulo `2^n` put the same bits.
pub proof fn lemma_put_bits_ignores_high_bits(s: BitWriterState, v1: u32, v2: u32, n: nat)
    requires
        n <= 32,
        (v1 as int) % (pow2(n) as int) == (v2 as int) % (pow2(n) as int),
    ensures
        s.put_bits_steps(v1, n) == s.put_bits_steps(v2, n),
    decreases n,
{
    if n > 0 {
        lemma_bit_of_low(v1, v2, n, (n - 1) as nat);
        let s1 = s.put_bit_uniform_step(bit_of(v1, n - 1));
        lemma_put_bits_ignores_high_bits(s1, v1, v2, (n - 1) as nat);
    }
}

/// Bit `j` of `v >> k` is bit `j + k` of `v`.
proof fn lemma_bit_of_shifted(v: u32, k: nat, j: nat)
    requires
        j + k < 32,
    ensures
        bit_of(v >> (k as u32), j as int) == bit_of(v, (j + k) as int),
{
    vstd::bits::lemma_u32_shr_is_div(v, k as u32);
    lemma_pow2_pos(k);
    lemma_pow2_pos(j);
    lemma_pow2_strictly_increases(j, 32);
    lemma_pow2_strictly_increases((j + k) as nat, 32);
    lemma2_to64();
    lemma_pow2_adds(j, k);
    lemma_div_denominator(v as int, pow2(k) as int, pow2(j) as int);
    lemma_mul_is_commutative(pow2(k) as int, pow2(j) as int);
    assert((pow2(j) as u32) as int == pow2(j) as int);
    assert((pow2((j + k) as nat) as u32) as int == pow2((j + k) as nat) as int);
}

/// Putting `n` bits of a value is putting its `n - k` high bits (the value
/// shifted right by `k`), then its `k` low bits.
pub proof fn lemma_put_bits_split(s: BitWriterState, v: u32, n: nat, k: nat)
    requires
        k <= n <= 32,
        k < 32,
    ensures
        s.put_bits_steps(v, n) == s.put_bits_steps(v >> (k as u32), (n - k) as nat).put_bits_steps(
            v,
            k,
        ),
    decreases n,
{
    if n > k {
        lemma_bit_of_shifted(v, k, (n - k - 1) as nat);
        let s1 = s.put_bit_uniform_step(bit_of(v, n - 1));
        lemma_put_bits_split(s1, v, (n - 1) as nat, k);
    }
}

/// A value of magnitude below `2^nb_bits` is put as a uniform non-zero bit
/// and, unless it is 0, the `nb_bits + 1` bits of twice its magnitude plus
/// its sign; that code fits in those bits, so nothing of the value is lost.
pub proof fn lemma_put_signed_bits_code(s: BitWriterState, value: int, nb_bits: int)
    requires
        0 <= nb_bits <= 30,
        -pow2(nb_bits as nat) < value < pow2(nb_bits as nat),
    ensures
        ({
            let code = 2 * (if value < 0 { -value } else { value }) + (if value < 0 { 1int } else { 0 });
            &&& 0 <= code < pow2((nb_bits + 1) as nat)
            &&& s.put_signed_bits_steps(value, nb_bits) == if value == 0 {
                s.put_bit_uniform_step(false)
            } else {
                s.put_bit_uniform_step(true).put_bits_steps(code as u32, (nb_bits + 1) as nat)
            }
        }),
{
    lemma_pow2_unfold((nb_bits + 1) as nat);
    lemma_pow2_strictly_increases(nb_bits as nat, 31);
    lemma2_to64();
    let code = 2 * (if value < 0 { -value } else { value }) + (if value < 0 { 1int } else { 0 });
    assert(signed_code(value) == code as u32);
}

/// Two encoder states that agree on their registers, their buffer's size
/// and their written bytes (the buffer's bytes past the written ones may
/// differ).
pub open spec fn same_output(a: BitWriterState, b: BitWriterState) -> bool {
    &&& a.range == b.range
    &&& a.value == b.value
    &&& a.run == b.run
    &&& a.nb_bits == b.nb_bits
    &&& a.pos == b.pos
    &&& a.error == b.error
    &&& a.buf.len() == b.buf.len()
    &&& a.buf.take(a.pos) == b.buf.take(b.pos)
}

/// A flush only reads the written bytes.
proof fn lemma_flushed_same(a: BitWriterState, b: BitWriterState)
    requires
        same_output(a, b),
        0 <= a.pos <= a.buf.len(),
        0 <= a.run,
    ensures
        same_output(a.flushed(), b.flushed()),
        a.flushed().pos <= a.flushed().buf.len(),
{
    let p = pow2((8 + a.nb_bits) as nat) as int;
    let bits = a.value / p;
    let ta = BitWriterState { value: a.value % p, nb_bits: a.nb_bits - 8, ..a };
    let tb = BitWriterState { value: b.value % p, nb_bits: b.nb_bits - 8, ..b };
    if bits % 256 != 255 {
        let (ra, oka) = ta.resized(ta.run + 1);
        let (rb, okb) = tb.resized(tb.run + 1);
        assert(oka == okb);
        assert(ra.buf.len() == rb.buf.len());
        assert(ra.buf.take(ra.pos) =~= a.buf.take(a.pos));
        assert(rb.buf.take(rb.pos) =~= b.buf.take(b.pos));
        if oka {
            let ea = ra.emitted(bits);
            let eb = rb.emitted(bits);
            let n = a.pos;
            assert(forall|i: int| 0 <= i < n ==> ra.buf[i] == #[trigger] rb.buf[i]) by {
                assert forall|i: int| 0 <= i < n implies ra.buf[i] == #[trigger] rb.buf[i] by {
                    assert(ra.buf.take(n)[i] == rb.buf.take(n)[i]);
                }
            }
            assert(ea.buf.take(ea.pos) =~= eb.buf.take(eb.pos));
        }
    }
}

/// Renormalizing only reads the written bytes.
proof fn lemma_renormalized_same(a: BitWriterState, b: BitWriterState, shift: int, scale: int)
    requires
        same_output(a, b),
        0 <= a.pos <= a.buf.len(),
        0 <= a.run,
    ensures
        same_output(a.renormalized(shift, scale), b.renormalized(shift, scale)),
{
    if a.range < 127 {
        let ra = a.rescaled(shift, scale);
        if ra.nb_bits > 0 {
            lemma_flushed_same(ra, b.rescaled(shift, scale));
        }
    }
}

/// Putting a bit only reads the registers, the buffer's size and the
/// written bytes: writers that agree on those still agree after it.
pub proof fn lemma_put_bit_reads_written_bytes(a: BitWriterState, b: BitWriterState, bit: bool, prob: int)
    requires
        same_output(a, b),
        0 <= a.pos <= a.buf.len(),
        0 <= a.run,
    ensures
        same_output(a.put_bit_step(bit, prob), b.put_bit_step(bit, prob)),
{
    let split = (a.range * prob) / 256;
    let sa = if bit {
        BitWriterState { value: a.value + split + 1, range: a.range - split - 1, ..a }
    } else {
        BitWriterState { range: split, ..a }
    };
    let sb = if bit {
        BitWriterState { value: b.value + split + 1, range: b.range - split - 1, ..b }
    } else {
        BitWriterState { range: split, ..b }
    };
    lemma_renormalized_same(sa, sb, log2_range(sa.range), range_scale(sa.range));
}

/// Putting a uniform bit on one writer and the same bit with probability
/// 128/256 on another that agrees with it on its registers, its buffer's
/// size and its written bytes leaves them agreeing so.
pub proof fn lemma_uniform_as_half_probability(a: BitWriterState, b: BitWriterState, bit: bool)
    requires
        same_output(a, b),
        a.wf(),
    ensures
        same_output(a.put_bit_uniform_step(bit), b.put_bit_step(bit, 128)),
{
    lemma_uniform_is_half_probability(a, bit);
    lemma_put_bit_reads_written_bytes(a, b, bit, 128);
}

/// Putting bits only reads the registers, the buffer's size and the written
/// bytes.
pub proof fn lemma_put_bits_reads_written_bytes(a: BitWriterState, b: BitWriterState, v: u32, n: nat)
    requires
        same_output(a, b),
        a.wf(),
        a.run + n <= i32::MAX,
    ensures
        same_output(a.put_bits_steps(v, n), b.put_bits_steps(v, n)),
    decreases n,
{
    if n > 0 {
        let bit = bit_of(v, n - 1);
        lemma_uniform_is_half_probability(a, bit);
        lemma_uniform_is_half_probability(b, bit);
        lemma_put_bit_reads_written_bytes(a, b, bit, 128);
        lemma_uniform_step_wf(a, bit);
        lemma_put_bits_reads_written_bytes(
            a.put_bit_uniform_step(bit),
            b.put_bit_uniform_step(bit),
            v,
            (n - 1) as nat,
        );
    }
}

/// A signed value is put as a uniform non-zero bit and the bits of its
/// sign-magnitude code, also on a second writer that agrees with the first
/// on its registers, its buffer's size and its written bytes.
pub proof fn lemma_put_signed_bits_as_code(a: BitWriterState, b: BitWriterState, value: int, nb_bits: int)
    requires
        same_output(a, b),
        a.wf(),
        a.run + nb_bits + 2 <= i32::MAX,
        0 <= nb_bits <= 30,
        -pow2(nb_bits as nat) < value < pow2(nb_bits as nat),
    ensures
        ({
            let code = 2 * (if value < 0 { -value } else { value }) + (if value < 0 { 1int } else { 0 });
            same_output(
                a.put_signed_bits_steps(value, nb_bits),
                if value == 0 {
                    b.put_bit_uniform_step(false)
                } else {
                    b.put_bit_uniform_step(true).put_bits_steps(code as u32, (nb_bits + 1) as nat)
                },
            )
        }),
{
    lemma_put_signed_bits_code(a, value, nb_bits);
    let bit = value != 0;
    lemma_uniform_is_half_probability(a, bit);
    lemma_uniform_is_half_probability(b, bit);
    lemma_put_bit_reads_written_bytes(a, b, bit, 128);
    lemma_uniform_step_wf(a, bit);
    if value != 0 {
        let code = 2 * (if value < 0 { -value } else { value }) + (if value < 0 { 1int } else { 0 });
        lemma_put_bits_reads_written_bytes(
            a.put_bit_uniform_step(true),
            b.put_bit_uniform_step(true),
            code as u32,
            (nb_bits + 1) as nat,
        );
    }
}

/// Bit `i` of a 64-bit word (`false` beyond bit 63).
pub open spec fn bit64(v: u64, i: int) -> bool {
    0 <= i < 64 && (v >> (i as u64)) & 1 == 1
}

/// The `n` low bits of `v`, least significant first.
pub open spec fn low_bits(v: u64, n: int) -> Seq<bool> {
    Seq::new(n as nat, |i: int| bit64(v, i))
}

/// The bits of a byte sequence, each byte least significant bit first.
pub open spec fn bytes_bits(s: Seq<u8>) -> Seq<bool>
    decreases s.len(),
{
    if s.len() == 0 {
        Seq::empty()
    } else {
        bytes_bits(s.drop_last()) + low_bits(s.last() as u64, 8)
    }
}

/// Largest number of bytes that the VP8L writer's buffer may have to hold:
/// growing a buffer of this size stays within `isize::MAX` bytes.
pub open spec fn l_max_bytes() -> int {
    (isize::MAX - 1025) / 2
}

/// Size of the buffer that the VP8L writer allocates to hold `required`
/// bytes when it has `max_bytes`: one and a half times the old size or the
/// required size, whichever is larger, rounded up past a multiple of 1024
/// (computed in `usize`, so it wraps).
pub open spec fn l_alloc_size(max_bytes: int, required: int) -> int {
    let a0 = (3 * max_bytes) / 2;
    let a1 = if a0 < required { required } else { a0 };
    (((a1 / 1024 + 1) * 1024) as usize) as int
}

/// Abstract state of the VP8L bit writer: the bit accumulator, the number
/// of bits used in it, the buffer (its length is the allocated size), the
/// write position in it and the error flag.
pub struct LBitWriterState {
    pub bits: u64,
    pub used: int,
    pub buf: Seq<u8>,
    pub cur: int,
    pub error: int,
}

/// The state of a freshly initialized VP8L writer, before its buffer is sized.
pub open spec fn initial_l_writer_state() -> LBitWriterState {
    LBitWriterState { bits: 0, used: 0, buf: Seq::empty(), cur: 0, error: 0 }
}

impl LBitWriterState {
    /// Structural invariant: the write position is inside the buffer.
    pub open spec fn wf(self) -> bool {
        &&& 0 <= self.used <= i32::MAX
        &&& 0 <= self.cur <= self.buf.len() <= isize::MAX
    }

    /// No bit is set in the accumulator at or above `used`.
    pub open spec fn clean(self) -> bool {
        self.used < 64 ==> self.bits >> (self.used as u64) == 0
    }

    /// The bit stream written so far: the bytes in the buffer followed by
    /// the used bits of the accumulator.
    pub open spec fn stream(self) -> Seq<bool> {
        bytes_bits(self.buf.take(self.cur)) + low_bits(self.bits, self.used)
    }

    /// Outcome of growing the buffer for `extra` more bytes after `cur`
    /// (the state and whether it succeeded).  A buffer that is non-empty and
    /// large enough is kept; otherwise a buffer of `l_alloc_size` bytes
    /// replaces it, holding the written bytes followed by zeros.  A required
    /// size beyond `usize` or an allocation beyond `isize::MAX` bytes fails
    /// and sets `error`.
    pub open spec fn resized(self, extra: int) -> (LBitWriterState, bool) {
        let required = self.cur + extra;
        if required > usize::MAX {
            (LBitWriterState { error: 1, ..self }, false)
        } else if self.buf.len() > 0 && required <= self.buf.len() {
            (self, true)
        } else {
            let size = l_alloc_size(self.buf.len() as int, required);
            if size > isize::MAX {
                (LBitWriterState { error: 1, ..self }, false)
            } else {
                (LBitWriterState { buf: self.buf.take(self.cur) + zeros(size - self.cur), ..self }, true)
            }
        }
    }

    /// A new buffer that gets allocated holds the bytes already written
    /// (always so unless the size computation wrapped around).
    pub open spec fn resize_fits(self, extra: int) -> bool {
        let required = self.cur + extra;
        required <= usize::MAX ==> !(self.buf.len() > 0 && required <= self.buf.len()) ==> {
            let size = l_alloc_size(self.buf.len() as int, required);
            size <= isize::MAX ==> self.cur <= size
        }
    }

    /// Writes the low byte of the accumulator (growing the buffer first when
    /// it is full) and drops it from the accumulator.
    pub open spec fn flush_step(self) -> LBitWriterState {
        let s1 = if self.cur >= self.buf.len() {
            self.resized(self.cur + 1).0
        } else {
            self
        };
        LBitWriterState {
            buf: s1.buf.update(s1.cur, self.bits as u8),
            cur: s1.cur + 1,
            bits: self.bits >> 8,
            used: self.used - 8,
            ..s1
        }
    }

    /// Writes whole bytes from the accumulator until fewer than 8 bits are used.
    pub open spec fn flushed(self) -> LBitWriterState
        decreases self.used,
    {
        if self.used < 8 {
            self
        } else {
            self.flush_step().flushed()
        }
    }

    /// Appends the `n_bits` low bits of `bits` to the accumulator, first
    /// flushing whole bytes when more than 32 bits would be used.
    pub open spec fn put_bits_step(self, bits: u32, n_bits: int) -> LBitWriterState {
        if n_bits > 0 {
            let s1 = if self.used + n_bits > 32 {
                self.flushed()
            } else {
                self
            };
            LBitWriterState {
                bits: s1.bits | ((bits as u64) << (s1.used as u64)),
                used: s1.used + n_bits,
                ..s1
            }
        } else {
            self
        }
    }
}

/// The bits of a word split into its low byte and the word shifted right by 8.
proof fn lemma_low_bits_split(v: u64, n: int)
    requires
        n >= 8,
    ensures
        low_bits(v, n) == low_bits((v as u8) as u64, 8) + low_bits(v >> 8, n - 8),
{
    let rhs = low_bits((v as u8) as u64, 8) + low_bits(v >> 8, n - 8);
    assert forall|i: int| 0 <= i < n implies low_bits(v, n)[i] == rhs[i] by {
        if i < 8 {
            let k = i as u64;
            assert(((v >> k) & 1 == 1) == ((((v as u8) as u64) >> k) & 1 == 1)) by (bit_vector)
                requires
                    k < 8,
            ;
        } else if i < 64 {
            let k = i as u64;
            assert(((v >> k) & 1 == 1) == (((v >> 8) >> ((k - 8) as u64)) & 1 == 1)) by (bit_vector)
                requires
                    8 <= k < 64,
            ;
        } else if i < 72 {
            let k = (i - 8) as u64;
            assert(((v >> 8) >> k) & 1 == 0) by (bit_vector)
                requires
                    56 <= k < 64,
            ;
        }
    }
    assert(low_bits(v, n) =~= rhs);
}

/// Each byte contributes 8 bits.
pub proof fn lemma_bytes_bits_len(s: Seq<u8>)
    ensures
        bytes_bits(s).len() == 8 * s.len(),
    decreases s.len(),
{
    if s.len() > 0 {
        lemma_bytes_bits_len(s.drop_last());
    }
}

/// Appending a byte appends its bits.
proof fn lemma_bytes_bits_push(s: Seq<u8>, b: u8)
    ensures
        bytes_bits(s.push(b)) == bytes_bits(s) + low_bits(b as u64, 8),
{
    assert(s.push(b).drop_last() =~= s);
}

/// A flush step keeps the stream and the accumulator clean.
proof fn lemma_flush_step_stream(s: LBitWriterState)
    requires
        s.wf(),
        s.clean(),
        s.used >= 8,
        s.cur >= s.buf.len() ==> s.resized(s.cur + 1).1 && s.resized(s.cur + 1).0.buf.len() > s.cur,
    ensures
        s.flush_step().stream() == s.stream(),
        s.flush_step().clean(),
{
    let t = s.flush_step();
    let s1 = if s.cur >= s.buf.len() {
        s.resized(s.cur + 1).0
    } else {
        s
    };
    assert(s1.cur == s.cur);
    assert(t.buf == s1.buf.update(s.cur, s.bits as u8));
    assert(s1.buf.len() > s.cur);
    assert(t.buf[s.cur] == s.bits as u8);
    assert forall|i: int| 0 <= i < s.cur implies t.buf[i] == s.buf[i] by {
        if s.cur >= s.buf.len() {
            assert(s1.buf.take(s.cur)[i] == s.buf.take(s.cur)[i]);
        }
    }
    assert(t.buf.take(t.cur) =~= s.buf.take(s.cur).push(s.bits as u8));
    lemma_bytes_bits_push(s.buf.take(s.cur), s.bits as u8);
    lemma_low_bits_split(s.bits, s.used);
    let v = s.bits;
    if t.used < 64 {
        let u = t.used as u64;
        if s.used < 64 {
            assert(v >> ((u + 8) as u64) == 0 ==> (v >> 8) >> u == 0) by (bit_vector)
                requires
                    u < 56,
            ;
        } else {
            assert((v >> 8) >> u == 0) by (bit_vector)
                requires
                    56 <= u < 64,
            ;
        }
    }
}

/// Or-ing `b << u` into a clean accumulator of `u` bits appends the `n` low
/// bits of `b`.
proof fn lemma_put_bits_stream(v: u64, u: int, b: u32, n: int)
    requires
        0 <= u <= 32,
        0 <= n,
        v >> (u as u64) == 0,
        n >= 32 || (b as u64) >> (n as u64) == 0,
    ensures
        low_bits(v | ((b as u64) << (u as u64)), u + n) == low_bits(v, u) + low_bits(b as u64, n),
        u + n < 64 ==> (v | ((b as u64) << (u as u64))) >> ((u + n) as u64) == 0,
{
    let w = v | ((b as u64) << (u as u64));
    let uu = u as u64;
    let bb = b as u64;
    let rhs = low_bits(v, u) + low_bits(bb, n);
    assert forall|i: int| 0 <= i < u + n implies low_bits(w, u + n)[i] == rhs[i] by {
        if i < u {
            let k = i as u64;
            assert(((w >> k) & 1 == 1) == ((v >> k) & 1 == 1)) by (bit_vector)
                requires
                    w == v | (bb << uu),
                    k < uu <= 32,
                    bb <= 0xffff_ffff,
            ;
        } else if i < 64 {
            let k = i as u64;
            assert(((w >> k) & 1 == 1) == ((bb >> ((k - uu) as u64)) & 1 == 1)) by (bit_vector)
                requires
                    w == v | (bb << uu),
                    uu <= k < 64,
                    uu <= 32,
                    v >> uu == 0,
                    bb <= 0xffff_ffff,
            ;
        } else {
            if i - u < 64 {
                let k = (i - u) as u64;
                assert((bb >> k) & 1 == 0) by (bit_vector)
                    requires
                        32 <= k < 64,
                        bb <= 0xffff_ffff,
                ;
            }
        }
    }
    assert(low_bits(w, u + n) =~= rhs);
    if u + n < 64 {
        let m = (u + n) as u64;
        let nn = n as u64;
        if n >= 32 {
            assert(w >> m == 0) by (bit_vector)
                requires
                    w == v | (bb << uu),
                    uu <= 32,
                    m == uu + nn,
                    nn >= 32,
                    m < 64,
                    v >> uu == 0,
                    bb <= 0xffff_ffff,
            ;
        } else {
            assert(w >> m == 0) by (bit_vector)
                requires
                    w == v | (bb << uu),
                    uu <= 32,
                    m == uu + nn,
                    nn < 32,
                    v >> uu == 0,
                    bb >> nn == 0,
                    bb <= 0xffff_ffff,
            ;
        }
    }
}

/// When the write position plus the bytes to flush stay within
/// `l_max_bytes()`, every growth of a full buffer succeeds and makes room.
proof fn lemma_flush_growth(s: LBitWriterState)
    requires
        s.wf(),
        s.cur <= l_max_bytes(),
    ensures
        s.cur >= s.buf.len() ==> s.resized(s.cur + 1).1 && s.resized(s.cur + 1).0.buf.len() > s.cur,
        s.cur >= s.buf.len() ==> s.resized(s.cur + 1).0.buf.take(s.cur) == s.buf.take(s.cur),
        s.cur >= s.buf.len() ==> s.resize_fits(s.cur + 1),
        s.cur >= s.buf.len() ==> 3 * s.buf.len() <= usize::MAX,
{
    if s.cur >= s.buf.len() {
        let required = s.cur + s.cur + 1;
        let a0 = (3 * s.buf.len()) / 2;
        assert(a0 < required);
        let size = l_alloc_size(s.buf.len() as int, required);
        assert(size == (required / 1024 + 1) * 1024);
        let r = s.resized(s.cur + 1).0;
        assert(r.buf.take(s.cur) =~= s.buf.take(s.cur));
    }
}

/// Flushing whole bytes keeps the bit stream (and the accumulator clean)
/// and leaves fewer than 8 bits in the accumulator.
pub proof fn lemma_flushed_stream(s: LBitWriterState)
    requires
        s.wf(),
        s.clean(),
        s.cur + s.used / 8 <= l_max_bytes(),
    ensures
        s.flushed().stream() == s.stream(),
        s.flushed().clean(),
        s.flushed().wf(),
        s.flushed().used < 8,
    decreases s.used,
{
    if s.used >= 8 {
        lemma_flush_growth(s);
        lemma_flush_step_stream(s);
        let t = s.flush_step();
        assert(t.cur + t.used / 8 == s.cur + 1 + (s.used - 8) / 8);
        lemma_flushed_stream(t);
    }
}

/// The number of bytes a stream occupies is unchanged by flushing.
pub proof fn lemma_flush_keeps_num_bytes(s: LBitWriterState)
    requires
        s.wf(),
        s.clean(),
        s.cur + s.used / 8 <= l_max_bytes(),
    ensures
        s.flushed().cur + (s.flushed().used + 7) / 8 == s.cur + (s.used + 7) / 8,
{
    lemma_flushed_stream(s);
    let t = s.flushed();
    lemma_bytes_bits_len(s.buf.take(s.cur));
    lemma_bytes_bits_len(t.buf.take(t.cur));
    assert(s.stream().len() == 8 * s.cur + s.used);
    assert(t.stream().len() == 8 * t.cur + t.used);
    assert(8 * t.cur + t.used == 8 * s.cur + s.used);
}

/// VP8L (lossless) bit writer.
pub struct VP8LBitWriter {
    /// bit accumulator
    pub bits_: u64,
    /// number of bits used in the accumulator
    pub used_: i32,
    /// the buffer; its length is the allocated size (end - start)
    pub buf_: Vec<u8>,
    /// current write position (offset from the start of the buffer)
    pub cur_: usize,
    /// end of the buffer (offset from its start)
    pub end_: usize,
    /// 1 in case of error
    pub error_: i32,
}

impl View for VP8LBitWriter {
    type V = LBitWriterState;

    open spec fn view(&self) -> LBitWriterState {
        LBitWriterState {
            bits: self.bits_,
            used: self.used_ as int,
            buf: self.buf_@,
            cur: self.cur_ as int,
            error: self.error_ as int,
        }
    }
}

impl Default for VP8LBitWriter {
    fn default() -> (w: Self)
        ensures
            w.bits_ == 0 && w.used_ == 0 && w.buf_@ == Seq::<u8>::empty(),
            w.cur_ == 0 && w.end_ == 0 && w.error_ == 0,
    {
        VP8LBitWriter { bits_: 0, used_: 0, buf_: Vec::new(), cur_: 0, end_: 0, error_: 0 }
    }
}

impl VP8LBitWriter {
    /// The writer is usable: `end_` is the buffer's size and the view keeps
    /// its structural invariant.
    pub open spec fn wf(&self) -> bool {
        &&& self.end_ == self.buf_.len()
        &&& self@.wf()
    }

    /// Resizes the internal buffer so that `extra_size` more bytes fit.
    fn resize(&mut self, extra_size: usize) -> (ok: bool)
        requires
            old(self).wf(),
            old(self).cur_ + extra_size <= u64::MAX,
            3 * old(self).buf_.len() <= usize::MAX,
            old(self)@.resize_fits(extra_size as int),
        ensures
            final(self).wf(),
            (final(self)@, ok) == old(self)@.resized(extra_size as int),
            final(self).bits_ == old(self).bits_ && final(self).used_ == old(self).used_,
            final(self).cur_ == old(self).cur_,
    {
        let max_bytes: usize = self.end_;
        let current_size: usize = self.cur_;
        let size_required_64b: u64 = current_size as u64 + extra_size as u64;
        let size_required: usize = #[verifier::truncate] (size_required_64b as usize);
        if size_required_64b != size_required as u64 {
            self.error_ = 1;
            return false;
        }
        if max_bytes > 0 && size_required <= max_bytes {
            return true;
        }
        let triple: usize = 3 * max_bytes;
        let mut allocated_size: usize = triple >> 1usize;
        assert(triple >> 1usize == triple / 2) by (bit_vector);
        if allocated_size < size_required {
            allocated_size = size_required;
        }
        let a1: usize = allocated_size;
        assert(a1 >> 10usize == a1 / 1024) by (bit_vector);
        let q1: usize = (allocated_size >> 10usize) + 1;
        allocated_size = q1 << 10usize;
        assert(q1 << 10usize == (q1 * 1024) as usize) by (bit_vector);
        assert(allocated_size as int == l_alloc_size(max_bytes as int, size_required as int));
        if allocated_size > isize::MAX as usize {
            self.error_ = 1;
            return false;
        }
        let mut new_buf: Vec<u8> = Vec::new();
        let mut i: usize = 0;
        while i < current_size
            invariant
                i <= current_size <= self.buf_.len(),
                new_buf@ == self.buf_@.take(i as int),
            decreases current_size - i,
        {
            new_buf.push(self.buf_[i]);
            i = i + 1;
        }
        while i < allocated_size
            invariant
                current_size <= i <= allocated_size,
                new_buf@ == self.buf_@.take(current_size as int) + zeros(i - current_size),
            decreases allocated_size - i,
        {
            new_buf.push(0u8);
            i = i + 1;
            assert(new_buf@ =~= self.buf_@.take(current_size as int) + zeros(i - current_size));
        }
        self.buf_ = new_buf;
        self.end_ = allocated_size;
        true
    }

    /// Initializes the writer with an empty accumulator and a buffer for at
    /// least `expected_size` bytes; returns `false` and sets `error_` when the
    /// buffer cannot be allocated.
    pub fn init(&mut self, expected_size: usize) -> (ok: bool)
        ensures
            final(self).wf(),
            (final(self)@, ok) == initial_l_writer_state().resized(expected_size as int),
    {
        *self = VP8LBitWriter::default();
        self.resize(expected_size)
    }

    /// Writes the whole bytes of the accumulator to the buffer.
    pub fn flush_bits(&mut self)
        requires
            old(self).wf(),
            old(self).used_ >= 8 ==> old(self).cur_ + old(self).used_ / 8 <= l_max_bytes(),
        ensures
            final(self).wf(),
            final(self)@ == old(self)@.flushed(),
            final(self).used_ < 8,
            old(self).used_ >= 8 ==> final(self).cur_ <= l_max_bytes(),
            old(self)@.clean() ==> final(self)@.clean() && final(self)@.stream() == old(self)@.stream(),
    {
        let ghost s0 = self@;
        while self.used_ >= 8
            invariant
                self.wf(),
                self.used_ >= 8 ==> self.cur_ + self.used_ / 8 <= l_max_bytes(),
                s0.used >= 8 ==> self.cur_ <= l_max_bytes(),
                self@.flushed() == s0.flushed(),
                s0.clean() ==> self@.clean() && self@.stream() == s0.stream(),
            decreases self.used_,
        {
            let ghost s1 = self@;
            proof {
                lemma_flush_growth(self@);
                if s1.clean() {
                    lemma_flush_step_stream(s1);
                }
            }
            if self.cur_ >= self.end_ {
                self.resize(self.cur_ + 1);
            }
            self.buf_.set(self.cur_, self.bits_ as u8);
            self.cur_ = self.cur_ + 1;
            self.bits_ = self.bits_ >> 8u64;
            self.used_ = self.used_ - 8;
            assert(self@ == s1.flush_step());
        }
    }

    /// Appends the `n_bits` low bits of `bits` to the stream (flushing whole
    /// bytes first when more than 32 bits would be used).
    pub fn put_bits_internal(&mut self, bits: u32, n_bits: i32)
        requires
            old(self).wf(),
            0 <= n_bits,
            old(self).used_ + n_bits <= i32::MAX,
            n_bits > 0 && old(self).used_ + n_bits > 32 ==> old(self).cur_ + old(self).used_ / 8
                <= l_max_bytes(),
        ensures
            final(self).wf(),
            final(self)@ == old(self)@.put_bits_step(bits, n_bits as int),
            old(self)@.clean() && (n_bits >= 32 || (bits as u64) >> (n_bits as u64) == 0) ==> {
                &&& final(self)@.clean()
                &&& final(self)@.stream() == old(self)@.stream() + low_bits(bits as u64, n_bits as int)
            },
    {
        let ghost s0 = self@;
        if n_bits > 0 {
            if self.used_ + n_bits > 32 {
                self.flush_bits();
            }
            let ghost s1 = self@;
            proof {
                if s0.clean() && (n_bits >= 32 || (bits as u64) >> (n_bits as u64) == 0) {
                    lemma_put_bits_stream(s1.bits, s1.used, bits, n_bits as int);
                    assert(s1.stream() + low_bits(bits as u64, n_bits as int) =~= bytes_bits(
                        s1.buf.take(s1.cur),
                    ) + (low_bits(s1.bits, s1.used) + low_bits(bits as u64, n_bits as int)));
                }
            }
            self.bits_ = self.bits_ | ((bits as u64) << (self.used_ as u64));
            self.used_ = self.used_ + n_bits;
        }
    }

    /// Makes this writer a copy of `src`: grows the buffer by the number of
    /// bytes `src` has written, copies those bytes to its start, and takes
    /// over the write position, the accumulator and the error flag, so that
    /// both writers then hold the same bit stream.
    pub fn clone_from(&mut self, src: &VP8LBitWriter) -> (ok: bool)
        requires
            old(self).wf(),
            src.wf(),
            old(self).cur_ + src.cur_ <= u64::MAX,
            3 * old(self).buf_.len() <= usize::MAX,
            old(self)@.resize_fits(src.cur_ as int),
            old(self)@.resized(src.cur_ as int).1 ==> src.cur_ <= old(self)@.resized(
                src.cur_ as int,
            ).0.buf.len(),
        ensures
            final(self).wf(),
            ok == old(self)@.resized(src.cur_ as int).1,
            !ok ==> final(self)@ == old(self)@.resized(src.cur_ as int).0,
            ok ==> final(self)@ == (LBitWriterState {
                bits: src.bits_,
                used: src.used_ as int,
                error: src.error_ as int,
                cur: src.cur_ as int,
                buf: src.buf_@.take(src.cur_ as int) + old(self)@.resized(src.cur_ as int).0.buf.skip(
                    src.cur_ as int,
                ),
            }),
            ok ==> final(self)@.stream() == src@.stream(),
    {
        let current_size: usize = src.cur_;
        if !self.resize(current_size) {
            return false;
        }
        let ghost r = self@;
        let mut i: usize = 0;
        while i < current_size
            invariant
                i <= current_size <= src.buf_.len(),
                current_size <= r.buf.len(),
                self.wf(),
                self.cur_ == r.cur,
                self.bits_ == r.bits && self.used_ == r.used && self.error_ == r.error,
                self.buf_@ == src.buf_@.take(i as int) + r.buf.skip(i as int),
            decreases current_size - i,
        {
            self.buf_.set(i, src.buf_[i]);
            i = i + 1;
            assert(self.buf_@ =~= src.buf_@.take(i as int) + r.buf.skip(i as int));
        }
        self.cur_ = current_size;
        self.bits_ = src.bits_;
        self.used_ = src.used_;
        self.error_ = src.error_;
        assert(self.buf_@.take(current_size as int) =~= src.buf_@.take(current_size as int));
        true
    }

    /// Rewinds the writer to the state recorded in `bw_init` (its
    /// accumulator, write position and error flag), keeping this buffer.
    pub fn reset(&mut self, bw_init: &VP8LBitWriter)
        requires
            old(self).wf(),
            bw_init.wf(),
            bw_init.cur_ <= old(self).end_,
        ensures
            final(self).wf(),
            final(self)@ == (LBitWriterState {
                bits: bw_init.bits_,
                used: bw_init.used_ as int,
                cur: bw_init.cur_ as int,
                error: bw_init.error_ as int,
                ..old(self)@
            }),
            final(self).end_ == old(self).end_,
    {
        self.bits_ = bw_init.bits_;
        self.used_ = bw_init.used_;
        self.cur_ = bw_init.cur_;
        self.error_ = bw_init.error_;
    }

    /// Exchanges the two writers.
    pub fn swap(&mut self, other: &mut VP8LBitWriter)
        ensures
            *final(self) == *old(other),
            *final(other) == *old(self),
    {
        std::mem::swap(self, other);
    }

    /// Releases the buffer and resets the writer to its default state.
    pub fn wipe_out(&mut self)
        ensures
            final(self).bits_ == 0 && final(self).used_ == 0,
            final(self).buf_@ == Seq::<u8>::empty(),
            final(self).cur_ == 0 && final(self).end_ == 0 && final(self).error_ == 0,
    {
        *self = VP8LBitWriter::default();
    }

    /// Number of bytes the stream occupies: the bytes written plus the bytes
    /// that the used bits of the accumulator start.
    pub fn num_bytes(&self) -> (n: usize)
        requires
            self.wf(),
            self.used_ <= i32::MAX - 7,
        ensures
            n == self.cur_ + (self.used_ + 7) / 8,
            8 * n >= self@.stream().len() > 8 * n - 8,
    {
        let used7: i32 = self.used_ + 7;
        let k: i32 = used7 >> 3u32;
        assert(0 <= used7 ==> used7 >> 3u32 == used7 / 8) by (bit_vector);
        proof {
            lemma_bytes_bits_len(self.buf_@.take(self.cur_ as int));
        }
        self.cur_ + k as usize
    }
}

} // verus!
