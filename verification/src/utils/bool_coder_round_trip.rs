//! The boolean decoder reads back what the boolean encoder writes.
//!
//! The encoder keeps the low end of its interval as the bytes it has
//! written (with the run of delayed 0xff bytes) above its pending value;
//! the decoder keeps the difference between the bytes it has read and that
//! low end.  Both move their intervals in step, so the decoder's comparison
//! with the split finds, bit by bit, the sub-interval the encoder chose.

use vstd::prelude::*;
use vstd::arithmetic::power2::*;
use vstd::arithmetic::mul::*;
use vstd::arithmetic::div_mod::*;
use crate::utils::bit_writer_utils::{
    BitWriterState,
    bit_of,
    initial_writer_state,
    lemma_put_bits_steps_wf,
    lemma_uniform_step_wf,
    lemma_flushed_wf,
    lemma_put_bit_keeps_invariant,
    lemma_uniform_is_half_probability,
};
use crate::utils::bit_reader_utils::{BitReaderState, buffer_set, shifted_in, lemma_range_scale_is_pow2, log2_range, range_scale, new_range};

verus! {

/// 256 to the power `k`.
pub open spec fn byte_scale(k: int) -> int {
    pow2((8 * k) as nat) as int
}

/// The bytes of `s` read as a big-endian number.
pub open spec fn be_value(s: Seq<u8>) -> int
    decreases s.len(),
{
    if s.len() == 0 {
        0
    } else {
        be_value(s.drop_last()) * 256 + s.last()
    }
}

proof fn lemma_byte_scale_step(k: int)
    requires
        k >= 0,
    ensures
        byte_scale(k + 1) == 256 * byte_scale(k),
        byte_scale(k) > 0,
        byte_scale(0) == 1,
{
    lemma2_to64();
    lemma_pow2_adds((8 * k) as nat, 8);
    assert((8 * k) as nat + 8 == (8 * (k + 1)) as nat);
    lemma_pow2_pos((8 * k) as nat);
}

/// Appending bytes shifts the value of the first part by their count.
pub proof fn lemma_be_concat(a: Seq<u8>, b: Seq<u8>)
    ensures
        be_value(a + b) == be_value(a) * byte_scale(b.len() as int) + be_value(b),
    decreases b.len(),
{
    lemma_byte_scale_step(0);
    if b.len() == 0 {
        assert(a + b =~= a);
    } else {
        let n = b.len() as int;
        assert((a + b).drop_last() =~= a + b.drop_last());
        lemma_be_concat(a, b.drop_last());
        lemma_byte_scale_step(n - 1);
        let x = be_value(a);
        let y = be_value(b.drop_last());
        let m = byte_scale(n - 1);
        assert((x * m + y) * 256 + b.last() == x * (256 * m) + (y * 256 + b.last())) by (nonlinear_arith);
    }
}

/// A number of `k` bytes is below `256^k`.
pub proof fn lemma_be_bound(s: Seq<u8>)
    ensures
        0 <= be_value(s) < byte_scale(s.len() as int),
    decreases s.len(),
{
    lemma_byte_scale_step(0);
    if s.len() > 0 {
        lemma_be_bound(s.drop_last());
        lemma_byte_scale_step(s.len() - 1);
    }
}

/// `k` bytes 0xff make `256^k - 1`.
proof fn lemma_be_ones(k: nat)
    ensures
        be_value(Seq::new(k, |i: int| 255u8)) == byte_scale(k as int) - 1,
    decreases k,
{
    lemma_byte_scale_step(0);
    if k > 0 {
        assert(Seq::new(k, |i: int| 255u8).drop_last() =~= Seq::new((k - 1) as nat, |i: int| 255u8));
        lemma_be_ones((k - 1) as nat);
        lemma_byte_scale_step(k - 1);
    }
}

/// `k` zero bytes make 0.
proof fn lemma_be_zeros(k: nat)
    ensures
        be_value(Seq::new(k, |i: int| 0u8)) == 0,
    decreases k,
{
    if k > 0 {
        assert(Seq::new(k, |i: int| 0u8).drop_last() =~= Seq::new((k - 1) as nat, |i: int| 0u8));
        lemma_be_zeros((k - 1) as nat);
    }
}

/// Reading one more byte.
pub proof fn lemma_be_take_next(s: Seq<u8>, q: int)
    requires
        0 <= q < s.len(),
    ensures
        be_value(s.take(q + 1)) == be_value(s.take(q)) * 256 + s[q],
{
    assert(s.take(q + 1).drop_last() =~= s.take(q));
}

/// The value of the encoder's output so far: the written bytes followed by
/// the run of delayed 0xff bytes.
pub open spec fn written_value(s: BitWriterState) -> int {
    be_value(s.buf.take(s.pos)) * byte_scale(s.run) + byte_scale(s.run) - 1
}

/// The low end of the encoder's interval: the output so far above the
/// pending value, in units of `2^-coder_scale(s)`.
pub open spec fn coder_low(s: BitWriterState) -> int {
    written_value(s) * pow2((16 + s.nb_bits) as nat) + s.value
}

/// How many bits the encoder's interval has been scaled by: the output
/// bytes and the pending bits past the first byte.
pub open spec fn coder_scale(s: BitWriterState) -> int {
    8 * (s.pos + s.run) + 8 + s.nb_bits
}

/// The pending value sits below the next output byte (so it cannot carry).
pub open spec fn settled(s: BitWriterState) -> bool {
    s.value < pow2((16 + s.nb_bits) as nat)
}

/// The bounds under which the output keeps describing the interval: the
/// encoder's invariant, no error, a pending value and range within one and
/// a half bytes above the pending bits, a last byte that can take a carry,
/// and an interval inside the initial one.
pub open spec fn coding(s: BitWriterState) -> bool {
    &&& s.wf()
    &&& s.carry_safe()
    &&& s.error == 0
    &&& s.value + s.range + 1 <= 3 * pow2((15 + s.nb_bits) as nat)
    &&& coder_low(s) + s.range + 1 <= 255 * pow2(coder_scale(s) as nat)
}

/// A flush moves the top byte of the pending value to the output without
/// changing the interval: a carry is added to the written bytes (the run
/// turning into zeros) and a 0xff byte joins the run.
#[verifier::spinoff_prover]
proof fn lemma_flush_keeps_low(s: BitWriterState)
    requires
        s.flushable(),
        s.carry_safe(),
        s.flushed().error == 0,
        s.value + s.range + 1 <= 3 * pow2((15 + s.nb_bits) as nat),
        coder_low(s) + s.range + 1 <= 255 * pow2(coder_scale(s) as nat),
    ensures
        coder_low(s.flushed()) == coder_low(s),
        coder_scale(s.flushed()) == coder_scale(s),
        settled(s.flushed()),
        s.flushed().range == s.range,
        s.flushed().nb_bits == s.nb_bits - 8,
        (s.value / (pow2((8 + s.nb_bits) as nat) as int)) % 256 != 255 ==> s.flushed().run == 0,
{
    let nb = s.nb_bits;
    let pe = (8 + nb) as nat;
    let p = pow2(pe) as int;
    let bits = s.value / p;
    let rest = s.value % p;
    lemma_pow2_pos(pe);
    lemma_fundamental_div_mod(s.value, p);
    lemma_mod_bound(s.value, p);
    lemma2_to64();
    lemma_pow2_adds(7, pe);
    lemma_pow2_adds(8, pe);
    assert(7 + pe == (15 + nb) as nat);
    assert(8 + pe == (16 + nb) as nat);
    let big = pow2((16 + nb) as nat) as int;
    assert(big == 256 * p);
    assert(bits < 384) by (nonlinear_arith)
        requires
            s.value == p * bits + rest,
            0 <= rest,
            s.value < 3 * (128 * p),
            p > 0,
    ;
    assert(bits >= 0) by (nonlinear_arith)
        requires
            s.value == p * bits + rest,
            rest < p,
            s.value >= 0,
            p > 0,
    ;
    let b = s.buf.take(s.pos);
    let run = s.run;
    let e = written_value(s);
    lemma_byte_scale_step(run);
    lemma_byte_scale_step(0);
    lemma_be_bound(b);
    if bits >= 256 && s.pos == 0 {
        assert(b =~= Seq::<u8>::empty());
        assert(e == byte_scale(run) - 1);
        let sc = coder_scale(s);
        lemma_pow2_adds((8 * run) as nat, (16 + nb) as nat);
        assert((8 * run) as nat + (16 + nb) as nat == (sc + 8) as nat);
        lemma_pow2_adds(sc as nat, 8);
        assert(s.value >= 256 * p) by (nonlinear_arith)
            requires
                s.value == p * bits + rest,
                bits >= 256,
                rest >= 0,
                p > 0,
        ;
        assert(byte_scale(run) * big == 256 * pow2(sc as nat));
        assert(e * big + s.value >= byte_scale(run) * big) by (nonlinear_arith)
            requires
                e == byte_scale(run) - 1,
                s.value >= big,
        ;
        assert(false);
    }
    let t = BitWriterState { value: rest, nb_bits: nb - 8, ..s };
    assert(pow2((16 + (nb - 8)) as nat) == p);
    if bits % 256 != 255 {
        let (r, ok) = t.resized(t.run + 1);
        assert(ok);
        assert(r.buf.take(r.pos) =~= b);
        let f = r.emitted(bits);
        assert(f == s.flushed());
        let carry = (bits / 256) % 2 == 1;
        let byte = (bits % 256) as u8;
        let fill: u8 = if carry { 0u8 } else { 255u8 };
        let b1 = if carry && s.pos > 0 {
            b.update(s.pos - 1, (b[s.pos - 1] + 1) as u8)
        } else {
            b
        };
        let fills = Seq::new(run as nat, |i: int| fill);
        assert(f.buf.take(f.pos) =~= b1 + fills + seq![byte]);
        lemma_be_concat(b1 + fills, seq![byte]);
        lemma_be_concat(b1, fills);
        assert(be_value(seq![byte]) == byte) by {
            assert(seq![byte].drop_last() =~= Seq::<u8>::empty());
            assert(be_value(Seq::<u8>::empty()) == 0);
        }
        let bs = byte_scale(run);
        if carry {
            assert(bits >= 256);
            assert(b[s.pos - 1] != 255);
            assert(b1 =~= b.drop_last().push((b[s.pos - 1] + 1) as u8));
            assert(b.drop_last().push((b[s.pos - 1] + 1) as u8).drop_last() =~= b.drop_last());
            assert(be_value(b1) == be_value(b) + 1);
            lemma_be_zeros(run as nat);
            assert(be_value(f.buf.take(f.pos)) == 256 * e + bits) by (nonlinear_arith)
                requires
                    be_value(f.buf.take(f.pos)) == ((be_value(b) + 1) * bs + 0) * 256 + byte,
                    byte == bits - 256,
                    e == be_value(b) * bs + bs - 1,
            ;
        } else {
            assert(bits < 256);
            lemma_be_ones(run as nat);
            assert(be_value(f.buf.take(f.pos)) == 256 * e + bits) by (nonlinear_arith)
                requires
                    be_value(f.buf.take(f.pos)) == (be_value(b) * bs + (bs - 1)) * 256 + byte,
                    byte == bits,
                    e == be_value(b) * bs + bs - 1,
            ;
        }
        assert(f.run == 0);
        assert(written_value(f) == be_value(f.buf.take(f.pos)) * byte_scale(0) + byte_scale(0) - 1);
        assert(written_value(f) == 256 * e + bits);
        assert(coder_low(f) == coder_low(s)) by (nonlinear_arith)
            requires
                coder_low(f) == (256 * e + bits) * p + rest,
                coder_low(s) == e * big + s.value,
                big == 256 * p,
                s.value == p * bits + rest,
        ;
    } else {
        assert(bits == 255);
        let f = BitWriterState { run: t.run + 1, ..t };
        assert(f == s.flushed());
        lemma_byte_scale_step(run + 1);
        assert(written_value(f) == 256 * e + 255) by (nonlinear_arith)
            requires
                written_value(f) == be_value(b) * byte_scale(run + 1) + byte_scale(run + 1) - 1,
                byte_scale(run + 1) == 256 * byte_scale(run),
                e == be_value(b) * byte_scale(run) + byte_scale(run) - 1,
        ;
        assert(coder_low(f) == coder_low(s)) by (nonlinear_arith)
            requires
                coder_low(f) == (256 * e + 255) * p + rest,
                coder_low(s) == e * big + s.value,
                big == 256 * p,
                s.value == p * 255 + rest,
        ;
    }
}


/// The low end of the half of the interval that a uniform `bit` selects.
pub open spec fn half_low(s: BitWriterState, bit: bool) -> int {
    coder_low(s) + if bit { s.range / 2 + 1 } else { 0 }
}

/// The range (minus 1) of the half of the interval that a uniform `bit`
/// selects.
pub open spec fn half_range(s: BitWriterState, bit: bool) -> int {
    if bit {
        s.range - s.range / 2 - 1
    } else {
        s.range / 2
    }
}

/// The doubling that renormalizes a half range (none when it is at least
/// 127).
pub open spec fn half_shift(s: BitWriterState, bit: bool) -> nat {
    if half_range(s, bit) < 127 {
        1
    } else {
        0
    }
}

/// A uniform bit keeps the output describing the interval: the interval
/// becomes the chosen half, doubled when renormalized.
#[verifier::spinoff_prover]
proof fn lemma_uniform_step_coding(s: BitWriterState, bit: bool)
    requires
        coding(s),
        s.run < i32::MAX,
        s.put_bit_uniform_step(bit).error == 0,
    ensures
        ({
            let t = s.put_bit_uniform_step(bit);
            let sh = half_shift(s, bit);
            &&& coding(t)
            &&& t.run <= s.run + 1
            &&& t.range <= 253
            &&& t.range + 1 == (half_range(s, bit) + 1) * pow2(sh)
            &&& coder_low(t) == half_low(s, bit) * pow2(sh)
            &&& coder_scale(t) == coder_scale(s) + sh
            &&& t.nb_bits == if s.nb_bits + sh > 0 { s.nb_bits + sh - 8 } else { s.nb_bits + sh }
            &&& (settled(s) && !bit) || s.nb_bits + sh > 0 ==> settled(t)
        }),
{
    lemma_uniform_step_wf(s, bit);
    lemma2_to64();
    let t = s.put_bit_uniform_step(bit);
    let split = s.range / 2;
    let r1 = half_range(s, bit);
    let s1 = if bit {
        BitWriterState { value: s.value + split + 1, range: s.range - split - 1, ..s }
    } else {
        BitWriterState { range: split, ..s }
    };
    let nb = s.nb_bits;
    assert(coder_low(s1) == half_low(s, bit));
    lemma_pow2_unfold((16 + nb) as nat);
    lemma_pow2_unfold((17 + nb) as nat);
    lemma_pow2_unfold((coder_scale(s) + 1) as nat);
    assert(s1.value + r1 + 1 <= s.value + s.range + 1);
    if r1 < 127 {
        assert(log2_range(r1) == 1 && range_scale(r1) == 2);
        let s2 = s1.rescaled(1, 2);
        assert(coder_low(s2) == 2 * coder_low(s1)) by (nonlinear_arith)
            requires
                coder_low(s2) == written_value(s1) * pow2((17 + nb) as nat) + 2 * s1.value,
                coder_low(s1) == written_value(s1) * pow2((16 + nb) as nat) + s1.value,
                pow2((17 + nb) as nat) == 2 * pow2((16 + nb) as nat),
        ;
        assert(coder_scale(s2) == coder_scale(s) + 1);
        assert(half_shift(s, bit) == 1 && pow2(1) == 2);
        if s2.nb_bits > 0 {
            assert(s2.flushable());
            lemma_flush_keeps_low(s2);
            if 15 + t.nb_bits > 8 {
                lemma_pow2_strictly_increases(8, (15 + t.nb_bits) as nat);
            }
            lemma_pow2_unfold((16 + t.nb_bits) as nat);
        } else {
            if settled(s) && !bit {
                assert(s2.value < pow2((16 + s2.nb_bits) as nat));
            }
        }
        assert(coder_low(t) == half_low(s, bit) * 2);
    } else {
        assert(half_shift(s, bit) == 0 && pow2(0) == 1);
        assert(coder_low(t) == half_low(s, bit));
    }
}


/// Once set, an error stays set through any number of uniform bits.
proof fn lemma_steps_keep_error(s: BitWriterState, v: u32, m: nat)
    requires
        s.wf(),
        s.run + m <= i32::MAX,
        s.error != 0,
    ensures
        s.put_bits_steps(v, m).error != 0,
    decreases m,
{
    if m > 0 {
        let b = bit_of(v, m - 1);
        lemma_uniform_is_half_probability(s, b);
        lemma_put_bit_keeps_invariant(s, b, 128);
        lemma_uniform_step_wf(s, b);
        lemma_steps_keep_error(s.put_bit_uniform_step(b), v, (m - 1) as nat);
    }
}

/// The interval a code lies in, in units of `2^-z`.
pub open spec fn code_in(c: int, s: BitWriterState, z: int) -> bool {
    let k = (z - coder_scale(s)) as nat;
    &&& coder_scale(s) <= z
    &&& coder_low(s) * pow2(k) <= c < (coder_low(s) + s.range + 1) * pow2(k)
}

/// Uniform bits keep the output describing the interval; the intervals
/// they lead to lie inside the current one.
#[verifier::spinoff_prover]
proof fn lemma_bits_coding(c: int, s: BitWriterState, v: u32, m: nat, z: int)
    requires
        coding(s),
        s.run + m <= i32::MAX,
        m <= 32,
        s.put_bits_steps(v, m).error == 0,
    ensures
        coding(s.put_bits_steps(v, m)),
        s.put_bits_steps(v, m).run <= s.run + m,
        m > 0 ==> s.put_bits_steps(v, m).range <= 253,
        coder_scale(s) <= coder_scale(s.put_bits_steps(v, m)),
        code_in(c, s.put_bits_steps(v, m), z) ==> code_in(c, s, z),
    decreases m,
{
    if m > 0 {
        let b = bit_of(v, m - 1);
        let s1 = s.put_bit_uniform_step(b);
        lemma_uniform_step_wf(s, b);
        if s1.error != 0 {
            lemma_steps_keep_error(s1, v, (m - 1) as nat);
        }
        lemma_uniform_step_coding(s, b);
        lemma_bits_coding(c, s1, v, (m - 1) as nat, z);
        if code_in(c, s.put_bits_steps(v, m), z) {
            let sh = half_shift(s, b);
            let k = (z - coder_scale(s)) as nat;
            let k1 = (z - coder_scale(s1)) as nat;
            lemma_pow2_adds(sh, k1);
            assert(sh + k1 == k);
            let hl = half_low(s, b);
            let hr = half_range(s, b);
            assert(coder_low(s1) * pow2(k1) == hl * pow2(k)) by (nonlinear_arith)
                requires
                    coder_low(s1) == hl * pow2(sh),
                    pow2(sh) * pow2(k1) == pow2(k),
            ;
            assert((coder_low(s1) + s1.range + 1) * pow2(k1) == (hl + hr + 1) * pow2(k))
                by (nonlinear_arith)
                requires
                    coder_low(s1) == hl * pow2(sh),
                    s1.range + 1 == (hr + 1) * pow2(sh),
                    pow2(sh) * pow2(k1) == pow2(k),
            ;
            assert(coder_low(s) <= hl && hl + hr + 1 <= coder_low(s) + s.range + 1);
            lemma_pow2_pos(k);
            assert(coder_low(s) * pow2(k) <= hl * pow2(k)) by (nonlinear_arith)
                requires
                    coder_low(s) <= hl,
                    pow2(k) > 0,
            ;
            assert((hl + hr + 1) * pow2(k) <= (coder_low(s) + s.range + 1) * pow2(k))
                by (nonlinear_arith)
                requires
                    hl + hr + 1 <= coder_low(s) + s.range + 1,
                    pow2(k) > 0,
            ;
        }
    }
}

/// Zero bits keep the low end of the interval and double it (from a range
/// below 254, each one is renormalized); once a byte has been flushed the
/// pending value is settled.
proof fn lemma_zero_padding(s: BitWriterState, k: nat)
    requires
        coding(s),
        s.range <= 253,
        s.run + k <= i32::MAX,
        k <= 32,
        s.put_bits_steps(0, k).error == 0,
    ensures
        coding(s.put_bits_steps(0, k)),
        coder_low(s.put_bits_steps(0, k)) == coder_low(s) * pow2(k),
        coder_scale(s.put_bits_steps(0, k)) == coder_scale(s) + k,
        s.put_bits_steps(0, k).run <= s.run + k,
        settled(s) || s.nb_bits + k > 0 ==> settled(s.put_bits_steps(0, k)),
    decreases k,
{
    lemma2_to64();
    if k > 0 {
        lemma_pow2_pos((k - 1) as nat);
        if k - 1 < 32 {
            lemma_pow2_strictly_increases((k - 1) as nat, 32);
        }
        assert(!bit_of(0u32, k - 1));
        let s1 = s.put_bit_uniform_step(false);
        lemma_uniform_step_wf(s, false);
        if s1.error != 0 {
            lemma_steps_keep_error(s1, 0, (k - 1) as nat);
        }
        lemma_uniform_step_coding(s, false);
        assert(half_shift(s, false) == 1);
        lemma_zero_padding(s1, (k - 1) as nat);
        lemma_pow2_unfold(k);
        assert(coder_low(s1) * pow2((k - 1) as nat) == coder_low(s) * pow2(k)) by (nonlinear_arith)
            requires
                coder_low(s1) == coder_low(s) * 2,
                pow2(k) == 2 * pow2((k - 1) as nat),
        ;
    }
}


/// Finishing writes exactly the low end of the interval: the zero bits
/// that pad the pending bits settle the value to 0, and the last byte
/// flushed completes the output.  The output then reaches at least a byte
/// past the interval's scale.
#[verifier::spinoff_prover]
proof fn lemma_finish_code(s: BitWriterState)
    requires
        coding(s),
        s.range <= 253,
        s.run + 18 <= i32::MAX,
        s.finished().error == 0,
    ensures
        ({
            let f = s.finished();
            let out = f.buf.take(f.pos);
            let z = 8 * out.len() - 8;
            &&& f.wf()
            &&& out.len() >= 1
            &&& coder_scale(s) + 8 <= z
            &&& be_value(out) == coder_low(s) * pow2((z - coder_scale(s)) as nat)
        }),
{
    lemma2_to64();
    let k = (9 - s.nb_bits) as nat;
    let t = s.put_bits_steps(0, k);
    let u = BitWriterState { nb_bits: 0, ..t };
    let f = u.flushed();
    assert(s.finished() == f);
    if t.error != 0 {
        let (r, ok) = u.resized(u.run + 1);
        assert(r.error != 0);
        assert(f.error != 0);
    }
    lemma_zero_padding(s, k);
    assert(t.nb_bits == -7);
    assert(settled(t));
    let w = written_value(t);
    lemma_pow2_adds((k - 9) as nat, 9);
    assert((k - 9) as nat + 9 == k);
    let m = coder_low(s) * pow2((k - 9) as nat);
    assert(t.value == 0) by (nonlinear_arith)
        requires
            w * 512 + t.value == coder_low(s) * pow2(k),
            pow2(k) == pow2((k - 9) as nat) * 512,
            m == coder_low(s) * pow2((k - 9) as nat),
            0 <= t.value < 512,
    {
        assert(w * 512 + t.value == m * 512);
    }
    assert(w * 512 == m * 512) by (nonlinear_arith)
        requires
            w * 512 + t.value == coder_low(s) * pow2(k),
            pow2(k) == pow2((k - 9) as nat) * 512,
            m == coder_low(s) * pow2((k - 9) as nat),
            t.value == 0,
    ;
    assert(u.flushable());
    lemma_pow2_adds(coder_scale(t) as nat, 7);
    assert(coder_scale(u) == coder_scale(t) + 7);
    assert(coder_low(u) == w * pow2(16));
    assert(coder_low(u) + u.range + 1 <= 255 * pow2(coder_scale(u) as nat)) by (nonlinear_arith)
        requires
            w * 512 + t.range + 1 <= 255 * pow2(coder_scale(t) as nat),
            coder_low(u) == w * 65536,
            pow2(coder_scale(u) as nat) == pow2(coder_scale(t) as nat) * 128,
            u.range == t.range,
            t.range >= 0,
    ;
    lemma_flush_keeps_low(u);
    lemma_flushed_wf(u);
    assert(f.run == 0);
    assert(f.value == 0);
    let out = f.buf.take(f.pos);
    lemma_byte_scale_step(0);
    assert(byte_scale(f.run) == 1);
    assert(written_value(f) == be_value(out) * 1 + 1 - 1);
    let bo = be_value(out);
    assert(bo * 1 + 1 - 1 == bo) by (nonlinear_arith);
    assert(written_value(f) == be_value(out));
    assert(be_value(out) * 256 == w * 65536);
    assert(f.pos == t.pos + t.run + 1);
    lemma_pow2_adds(k, (k - 1) as nat);
    lemma_pow2_unfold(k);
    lemma_pow2_adds((k - 9) as nat, 8);
    assert((k - 9) as nat + 8 == (k - 1) as nat);
    assert(be_value(out) == coder_low(s) * pow2((k - 1) as nat)) by (nonlinear_arith)
        requires
            be_value(out) * 256 == w * 65536,
            w * 512 == m * 512,
            m == coder_low(s) * pow2((k - 9) as nat),
            pow2((k - 1) as nat) == pow2((k - 9) as nat) * 256,
    ;
}


/// The decoder follows the encoder on the output `out`: same range, the
/// bytes read reach `bits` bits past the interval's scale, and the value is
/// what was read less the interval's low end.
pub open spec fn decoding(d: BitReaderState, s: BitWriterState, out: Seq<u8>) -> bool {
    &&& d.range == s.range
    &&& d.data == out
    &&& d.buf_end == out.len()
    &&& d.eof == 0
    &&& 0 <= d.bits <= 7
    &&& 0 <= d.buf <= out.len()
    &&& 8 * d.buf == coder_scale(s) + 8 + d.bits
    &&& d.value == be_value(out.take(d.buf)) - coder_low(s) * pow2(d.bits as nat)
}

/// Comparing a number with a multiple of `m` only looks at its quotient.
proof fn lemma_scaled_compare(a: int, b: int, m: int, y: int)
    requires
        0 <= b < m,
    ensures
        (a * m + b >= y * m) == (a >= y),
        (a * m + b < y * m) == (a < y),
{
    if a >= y {
        lemma_mul_inequality(y, a, m);
    } else {
        lemma_mul_inequality(a + 1, y, m);
        assert((a + 1) * m == a * m + m) by (nonlinear_arith);
    }
}

/// A small value shifts into the window without loss.
proof fn lemma_shifted_in_small(x: u64, y: u64)
    requires
        x < 0x100_0000,
        y < 256,
    ensures
        shifted_in(x, y) == x * 256 + y,
{
    assert((x << 8u64) | y == x * 256 + y) by (bit_vector)
        requires
            x < 0x100_0000,
            y < 256,
    ;
    assert(((x << 8u64) | y) & 0xffff_ffff == x * 256 + y) by (bit_vector)
        requires
            x < 0x100_0000,
            y < 256,
    ;
}

/// Decoding `n` uniform bits of what the encoder wrote gives the value
/// whose `n` low bits the encoder put.
#[verifier::spinoff_prover]
proof fn lemma_decode_bits(d: BitReaderState, s: BitWriterState, v: u32, n: nat, out: Seq<u8>)
    requires
        decoding(d, s, out),
        coding(s),
        s.run + n <= i32::MAX,
        n <= 32,
        s.put_bits_steps(v, n).error == 0,
        code_in(be_value(out), s.put_bits_steps(v, n), 8 * out.len() - 8),
        coder_scale(s.put_bits_steps(v, n)) + 8 <= 8 * out.len() - 8,
    ensures
        d.get_value_step(n as int).1 == (v as int) % (pow2(n) as int),
    decreases n,
{
    lemma2_to64();
    let c = be_value(out);
    let z = 8 * out.len() - 8;
    if n == 0 {
        assert((v as int) % 1 == 0);
    } else {
        let kb = (n - 1) as nat;
        let b = bit_of(v, kb as int);
        let s1 = s.put_bit_uniform_step(b);
        lemma_uniform_step_wf(s, b);
        if s1.error != 0 {
            lemma_steps_keep_error(s1, v, kb);
        }
        lemma_uniform_step_coding(s, b);
        lemma_bits_coding(c, s1, v, kb, z);
        lemma_uniform_is_half_probability(s, b);
        lemma_decode_bit(d, s, b, 0x80, out);
        let d1 = d.get_bit_step(0x80).0;
        lemma_decode_bits(d1, s1, v, kb, out);
        let p = pow2(kb) as int;
        lemma_pow2_pos(kb);
        lemma_pow2_strictly_increases(kb, 32);
        assert((pow2(kb) as u32) as int == p);
        lemma_pow2_unfold(n);
        lemma_mod_breakdown(v as int, p, 2);
        assert(p * 2 == pow2(n));
        assert(((v as int) / p) % 2 == if b { 1int } else { 0 });
    }
}


/// What the boolean encoder writes, the boolean decoder reads back: after
/// `init`, `put_bits(v, n)` and `finish` (with no allocation error), a
/// decoder initialized on the bytes that `finish` returns reads `n` bits,
/// most significant first, as the `n` low bits of `v`.
#[verifier::spinoff_prover]
pub proof fn lemma_read_back_put_bits(expected_size: nat, v: u32, n: nat, r0: BitReaderState)
    requires
        1 <= n < 32,
        initial_writer_state().resized(expected_size as int).1,
        initial_writer_state().resized(expected_size as int).0.put_bits_steps(v, n).finished().error
            == 0,
    ensures
        ({
            let w = initial_writer_state().resized(expected_size as int).0.put_bits_steps(
                v,
                n,
            ).finished();
            let out = w.buf.take(w.pos);
            let d = buffer_set(
                BitReaderState { range: 254, value: 0, bits: -8, eof: 0, ..r0 },
                out,
                out.len() as int,
            ).loaded();
            d.get_value_step(n as int).1 == (v as int) % (pow2(n) as int)
        }),
{
    lemma2_to64();
    let s0 = initial_writer_state().resized(expected_size as int).0;
    lemma_byte_scale_step(0);
    assert(s0.buf.take(0) =~= Seq::<u8>::empty());
    assert(written_value(s0) == 0);
    assert(coding(s0));
    let sn = s0.put_bits_steps(v, n);
    lemma_put_bits_steps_wf(s0, v, n);
    let k = (9 - sn.nb_bits) as nat;
    if sn.error != 0 {
        lemma_steps_keep_error(sn, 0, k);
        let t = sn.put_bits_steps(0, k);
        let u = BitWriterState { nb_bits: 0, ..t };
        let (r, ok) = u.resized(u.run + 1);
        assert(r.error != 0);
        assert(sn.finished() == u.flushed());
        assert(false);
    }
    let f = sn.finished();
    let out = f.buf.take(f.pos);
    let z = 8 * out.len() - 8;
    let c = be_value(out);
    lemma_bits_coding(c, s0, v, n, z);
    lemma_finish_code(sn);
    let kk = (z - coder_scale(sn)) as nat;
    lemma_pow2_pos(kk);
    assert(c < (coder_low(sn) + sn.range + 1) * pow2(kk)) by (nonlinear_arith)
        requires
            c == coder_low(sn) * pow2(kk),
            pow2(kk) > 0,
            sn.range >= 0,
    ;
    assert(code_in(c, sn, z));
    let d = buffer_set(
        BitReaderState { range: 254, value: 0, bits: -8, eof: 0, ..r0 },
        out,
        out.len() as int,
    ).loaded();
    lemma_shifted_in_small(0, out[0] as u64);
    lemma_be_take_next(out, 0);
    assert(out.take(0) =~= Seq::<u8>::empty());
    assert(decoding(d, s0, out));
    lemma_decode_bits(d, s0, v, n, out);
}


/// The low end of the part of the interval that `bit` selects when it is
/// encoded with probability `prob / 256`.
pub open spec fn chosen_low(s: BitWriterState, bit: bool, prob: int) -> int {
    coder_low(s) + if bit { (s.range * prob) / 256 + 1 } else { 0 }
}

/// The range (minus 1) of the part of the interval that `bit` selects.
pub open spec fn chosen_range(s: BitWriterState, bit: bool, prob: int) -> int {
    let split = (s.range * prob) / 256;
    if bit {
        s.range - split - 1
    } else {
        split
    }
}

/// The shift that renormalizes the chosen range (none when it is at least
/// 127).
pub open spec fn chosen_shift(s: BitWriterState, bit: bool, prob: int) -> nat {
    if chosen_range(s, bit, prob) < 127 {
        log2_range(chosen_range(s, bit, prob)) as nat
    } else {
        0
    }
}

/// A renormalized range is at most 253.
proof fn lemma_new_range_bound(r: int)
    requires
        0 <= r < 127,
    ensures
        new_range(r) <= 253,
        127 <= new_range(r),
        new_range(r) + 1 == (r + 1) * pow2(log2_range(r) as nat),
        1 <= log2_range(r) <= 7,
{
    lemma_range_scale_is_pow2(r);
}

/// A bit encoded with any probability keeps the output describing the
/// interval: the interval becomes the part the bit selects, scaled by the
/// renormalization.
#[verifier::spinoff_prover]
proof fn lemma_put_bit_coding(s: BitWriterState, bit: bool, prob: int)
    requires
        coding(s),
        s.run < i32::MAX,
        0 <= prob <= 255,
        s.put_bit_step(bit, prob).error == 0,
    ensures
        ({
            let t = s.put_bit_step(bit, prob);
            let sh = chosen_shift(s, bit, prob);
            &&& coding(t)
            &&& t.run <= s.run + 1
            &&& t.range <= 253
            &&& t.range + 1 == (chosen_range(s, bit, prob) + 1) * pow2(sh)
            &&& coder_low(t) == chosen_low(s, bit, prob) * pow2(sh)
            &&& coder_scale(t) == coder_scale(s) + sh
            &&& sh <= 7
        }),
{
    lemma_put_bit_keeps_invariant(s, bit, prob);
    lemma2_to64();
    let t = s.put_bit_step(bit, prob);
    let split = (s.range * prob) / 256;
    assert(0 <= split <= s.range - 1) by (nonlinear_arith)
        requires
            split == (s.range * prob) / 256,
            127 <= s.range <= 254,
            0 <= prob <= 255,
    ;
    let r1 = chosen_range(s, bit, prob);
    let s1 = if bit {
        BitWriterState { value: s.value + split + 1, range: s.range - split - 1, ..s }
    } else {
        BitWriterState { range: split, ..s }
    };
    let nb = s.nb_bits;
    assert(coder_low(s1) == chosen_low(s, bit, prob));
    assert(s1.value + r1 + 1 <= s.value + s.range + 1);
    if r1 < 127 {
        lemma_new_range_bound(r1);
        let sh = log2_range(r1) as nat;
        let sc = range_scale(r1);
        lemma_range_scale_is_pow2(r1);
        let s2 = s1.rescaled(sh as int, sc);
        lemma_pow2_adds((16 + nb) as nat, sh);
        assert((16 + nb) as nat + sh == (16 + s2.nb_bits) as nat);
        lemma_pow2_adds((15 + nb) as nat, sh);
        assert((15 + nb) as nat + sh == (15 + s2.nb_bits) as nat);
        lemma_pow2_adds(coder_scale(s) as nat, sh);
        assert(coder_scale(s) as nat + sh == coder_scale(s2) as nat);
        let w = written_value(s1);
        assert(coder_low(s2) == coder_low(s1) * pow2(sh)) by (nonlinear_arith)
            requires
                coder_low(s2) == w * pow2((16 + s2.nb_bits) as nat) + s1.value * sc,
                coder_low(s1) == w * pow2((16 + nb) as nat) + s1.value,
                pow2((16 + nb) as nat) * pow2(sh) == pow2((16 + s2.nb_bits) as nat),
                sc == pow2(sh),
        ;
        assert(s2.value + s2.range + 1 <= 3 * pow2((15 + s2.nb_bits) as nat)) by (nonlinear_arith)
            requires
                s2.value + s2.range + 1 == (s1.value + r1 + 1) * sc,
                s1.value + r1 + 1 <= 3 * pow2((15 + nb) as nat),
                pow2((15 + nb) as nat) * sc == pow2((15 + s2.nb_bits) as nat),
                sc > 0,
        ;
        assert(coder_low(s2) + s2.range + 1 <= 255 * pow2(coder_scale(s2) as nat)) by (nonlinear_arith)
            requires
                coder_low(s2) + s2.range + 1 == (coder_low(s1) + r1 + 1) * sc,
                coder_low(s1) + r1 + 1 <= 255 * pow2(coder_scale(s) as nat),
                pow2(coder_scale(s) as nat) * sc == pow2(coder_scale(s2) as nat),
                sc > 0,
        ;
        if s2.nb_bits > 0 {
            assert(s2.flushable());
            lemma_flush_keeps_low(s2);
            if 15 + t.nb_bits > 8 {
                lemma_pow2_strictly_increases(8, (15 + t.nb_bits) as nat);
            }
            lemma_pow2_unfold((16 + t.nb_bits) as nat);
        }
        assert(coder_low(t) == chosen_low(s, bit, prob) * pow2(sh));
    } else {
        assert(chosen_shift(s, bit, prob) == 0 && pow2(0) == 1);
        assert(r1 <= 253);
        assert(coder_low(t) == chosen_low(s, bit, prob));
    }
}


/// Decoding a bit with probability `prob / 256` from what the encoder
/// wrote gives the encoder's bit back, and the decoder keeps following the
/// encoder.
#[verifier::spinoff_prover]
proof fn lemma_decode_bit(d: BitReaderState, s: BitWriterState, bit: bool, prob: int, out: Seq<u8>)
    requires
        decoding(d, s, out),
        coding(s),
        s.run < i32::MAX,
        0 <= prob <= 255,
        s.put_bit_step(bit, prob).error == 0,
        code_in(be_value(out), s.put_bit_step(bit, prob), 8 * out.len() - 8),
        coder_scale(s.put_bit_step(bit, prob)) + 8 <= 8 * out.len() - 8,
    ensures
        d.get_bit_step(prob).1 == bit,
        decoding(d.get_bit_step(prob).0, s.put_bit_step(bit, prob), out),
{
    lemma2_to64();
    let t = s.put_bit_step(bit, prob);
    lemma_put_bit_coding(s, bit, prob);
    let len = out.len() as int;
    let z = 8 * len - 8;
    let q = d.buf;
    let b = d.bits;
    let r = s.range;
    let low = coder_low(s);
    let sh = chosen_shift(s, bit, prob);
    let k = (z - coder_scale(s)) as nat;
    let kt = (z - coder_scale(t)) as nat;
    let mq = (8 * (len - q)) as nat;
    let unit = pow2(b as nat) as int;
    let m = pow2(mq) as int;
    lemma_pow2_adds(b as nat, mq);
    assert(b as nat + mq == k);
    lemma_pow2_adds(sh, kt);
    assert(sh + kt == k);
    lemma_pow2_pos(b as nat);
    lemma_pow2_pos(mq);
    let a = be_value(out.take(q));
    let rest = be_value(out.skip(q));
    assert(out =~= out.take(q) + out.skip(q));
    lemma_be_concat(out.take(q), out.skip(q));
    lemma_be_bound(out.skip(q));
    assert(be_value(out) == a * m + rest);
    let hl = chosen_low(s, bit, prob);
    let hr = chosen_range(s, bit, prob);
    assert(coder_low(t) * pow2(kt) == (hl * unit) * m) by (nonlinear_arith)
        requires
            coder_low(t) == hl * pow2(sh),
            pow2(sh) * pow2(kt) == pow2(k),
            unit * m == pow2(k),
    ;
    assert((coder_low(t) + t.range + 1) * pow2(kt) == ((hl + hr + 1) * unit) * m) by (nonlinear_arith)
        requires
            coder_low(t) == hl * pow2(sh),
            t.range + 1 == (hr + 1) * pow2(sh),
            pow2(sh) * pow2(kt) == pow2(k),
            unit * m == pow2(k),
    ;
    lemma_scaled_compare(a, rest, m, hl * unit);
    lemma_scaled_compare(a, rest, m, (hl + hr + 1) * unit);
    assert(hl * unit <= a < (hl + hr + 1) * unit);
    let value = d.value as int;
    let split = (r * prob) / 256;
    assert(0 <= split <= r - 1) by (nonlinear_arith)
        requires
            split == (r * prob) / 256,
            127 <= r <= 254,
            0 <= prob <= 255,
    ;
    let quo = value / unit;
    lemma_fundamental_div_mod(value, unit);
    lemma_mod_bound(value, unit);
    lemma_mul_is_commutative(unit, quo);
    assert((hl - low) * unit <= value < (hl + hr + 1 - low) * unit) by (nonlinear_arith)
        requires
            hl * unit <= a < (hl + hr + 1) * unit,
            value == a - low * unit,
    ;
    assert(hl - low <= quo < hl + hr + 1 - low) by (nonlinear_arith)
        requires
            (hl - low) * unit <= value < (hl + hr + 1 - low) * unit,
            value == quo * unit + value % unit,
            0 <= value % unit < unit,
            unit > 0,
    {
        lemma_scaled_compare(quo, value % unit, unit, hl - low);
        lemma_scaled_compare(quo, value % unit, unit, hl + hr + 1 - low);
    }
    if bit {
        assert(hl == low + split + 1 && hl + hr + 1 == low + r + 1);
    } else {
        assert(hl == low && hl + hr + 1 == low + split + 1);
    }
    assert(quo % 0x1_0000_0000 == quo);
    assert(d.get_bit_step(prob).1 == bit);
    let value1 = a - hl * unit;
    assert(value1 == value - (if bit { (split + 1) * unit } else { 0 })) by (nonlinear_arith)
        requires
            value == a - low * unit,
            value1 == a - hl * unit,
            bit ==> hl == low + split + 1,
            !bit ==> hl == low,
    ;
    if hr < 127 {
        lemma_new_range_bound(hr);
        assert(new_range(hr) == t.range);
        if b >= sh {
            lemma_pow2_adds(sh, (b - sh) as nat);
            assert(sh + (b - sh) as nat == b as nat);
            assert(value1 == a - coder_low(t) * pow2((b - sh) as nat)) by (nonlinear_arith)
                requires
                    value1 == a - hl * unit,
                    unit == pow2(sh) * pow2((b - sh) as nat),
                    coder_low(t) == hl * pow2(sh),
            ;
        } else {
            assert(q < len);
            lemma_pow2_strictly_increases(b as nat, 8);
            assert(0 <= value1 < 0x100_0000) by (nonlinear_arith)
                requires
                    hl * unit <= a < (hl + hr + 1) * unit,
                    value1 == a - hl * unit,
                    hr < 127,
                    0 < unit < 256,
            ;
            lemma_shifted_in_small(value1 as u64, out[q] as u64);
            lemma_be_take_next(out, q);
            let nb = (b - sh + 8) as nat;
            lemma_pow2_adds(sh, nb);
            assert(sh + nb == b as nat + 8);
            lemma_pow2_adds(b as nat, 8);
            assert(d.get_bit_step(prob).0.value == value1 * 256 + out[q]);
            assert(value1 * 256 + out[q] == be_value(out.take(q + 1)) - coder_low(t) * pow2(nb))
                by (nonlinear_arith)
                requires
                    value1 == a - hl * unit,
                    be_value(out.take(q + 1)) == a * 256 + out[q],
                    coder_low(t) == hl * pow2(sh),
                    pow2(sh) * pow2(nb) == pow2(b as nat + 8),
                    unit * pow2(8) == pow2(b as nat + 8),
                    pow2(8) == 256,
            ;
        }
    } else {
        assert(sh == 0 && pow2(0) == 1);
    }
}

/// The encoder's state after encoding each bit of `bits` with the
/// probability at the same index of `probs`.
pub open spec fn put_bit_seq(s: BitWriterState, bits: Seq<bool>, probs: Seq<int>) -> BitWriterState
    decreases bits.len(),
{
    if bits.len() == 0 {
        s
    } else {
        put_bit_seq(s.put_bit_step(bits[0], probs[0]), bits.drop_first(), probs.drop_first())
    }
}

/// The bits the decoder reads with the probabilities of `probs`, one after
/// the other.
pub open spec fn get_bit_seq(d: BitReaderState, probs: Seq<int>) -> Seq<bool>
    decreases probs.len(),
{
    if probs.len() == 0 {
        Seq::empty()
    } else {
        seq![d.get_bit_step(probs[0]).1] + get_bit_seq(d.get_bit_step(probs[0]).0, probs.drop_first())
    }
}

/// The probabilities are those `put_bit` takes, one for each bit.
pub open spec fn probs_fit(bits: Seq<bool>, probs: Seq<int>) -> bool {
    &&& bits.len() == probs.len()
    &&& forall|i: int| 0 <= i < probs.len() ==> 0 <= #[trigger] probs[i] <= 255
}

/// Once set, an error stays set through any bits.
proof fn lemma_seq_keeps_error(s: BitWriterState, bits: Seq<bool>, probs: Seq<int>)
    requires
        s.wf(),
        s.run + bits.len() <= i32::MAX,
        s.error != 0,
        probs_fit(bits, probs),
    ensures
        put_bit_seq(s, bits, probs).error != 0,
    decreases bits.len(),
{
    if bits.len() > 0 {
        assert(0 <= probs[0] <= 255);
        lemma_put_bit_keeps_invariant(s, bits[0], probs[0]);
        lemma_seq_keeps_error(s.put_bit_step(bits[0], probs[0]), bits.drop_first(), probs.drop_first());
    }
}

/// Bits keep the output describing the interval; the intervals they lead
/// to lie inside the current one.
#[verifier::spinoff_prover]
proof fn lemma_seq_coding(c: int, s: BitWriterState, bits: Seq<bool>, probs: Seq<int>, z: int)
    requires
        coding(s),
        s.run + bits.len() <= i32::MAX,
        probs_fit(bits, probs),
        put_bit_seq(s, bits, probs).error == 0,
    ensures
        coding(put_bit_seq(s, bits, probs)),
        put_bit_seq(s, bits, probs).run <= s.run + bits.len(),
        bits.len() > 0 ==> put_bit_seq(s, bits, probs).range <= 253,
        coder_scale(s) <= coder_scale(put_bit_seq(s, bits, probs)),
        code_in(c, put_bit_seq(s, bits, probs), z) ==> code_in(c, s, z),
    decreases bits.len(),
{
    if bits.len() > 0 {
        let b = bits[0];
        let p = probs[0];
        assert(0 <= p <= 255);
        let s1 = s.put_bit_step(b, p);
        let rb = bits.drop_first();
        let rp = probs.drop_first();
        assert(probs_fit(rb, rp)) by {
            assert forall|i: int| 0 <= i < rp.len() implies 0 <= #[trigger] rp[i] <= 255 by {
                assert(rp[i] == probs[i + 1]);
            }
        }
        lemma_put_bit_keeps_invariant(s, b, p);
        if s1.error != 0 {
            lemma_seq_keeps_error(s1, rb, rp);
        }
        lemma_put_bit_coding(s, b, p);
        lemma_seq_coding(c, s1, rb, rp, z);
        if code_in(c, put_bit_seq(s, bits, probs), z) {
            let sh = chosen_shift(s, b, p);
            let k = (z - coder_scale(s)) as nat;
            let k1 = (z - coder_scale(s1)) as nat;
            lemma_pow2_adds(sh, k1);
            assert(sh + k1 == k);
            let hl = chosen_low(s, b, p);
            let hr = chosen_range(s, b, p);
            assert(coder_low(s1) * pow2(k1) == hl * pow2(k)) by (nonlinear_arith)
                requires
                    coder_low(s1) == hl * pow2(sh),
                    pow2(sh) * pow2(k1) == pow2(k),
            ;
            assert((coder_low(s1) + s1.range + 1) * pow2(k1) == (hl + hr + 1) * pow2(k))
                by (nonlinear_arith)
                requires
                    coder_low(s1) == hl * pow2(sh),
                    s1.range + 1 == (hr + 1) * pow2(sh),
                    pow2(sh) * pow2(k1) == pow2(k),
            ;
            let split = (s.range * p) / 256;
            assert(0 <= split <= s.range - 1) by (nonlinear_arith)
                requires
                    split == (s.range * p) / 256,
                    127 <= s.range <= 254,
                    0 <= p <= 255,
            ;
            assert(coder_low(s) <= hl && hl + hr + 1 <= coder_low(s) + s.range + 1);
            lemma_pow2_pos(k);
            assert(coder_low(s) * pow2(k) <= hl * pow2(k)) by (nonlinear_arith)
                requires
                    coder_low(s) <= hl,
                    pow2(k) > 0,
            ;
            assert((hl + hr + 1) * pow2(k) <= (coder_low(s) + s.range + 1) * pow2(k))
                by (nonlinear_arith)
                requires
                    hl + hr + 1 <= coder_low(s) + s.range + 1,
                    pow2(k) > 0,
            ;
        }
    }
}

/// Decoding with the encoder's probabilities from what it wrote gives its
/// bits back.
#[verifier::spinoff_prover]
proof fn lemma_decode_seq(d: BitReaderState, s: BitWriterState, bits: Seq<bool>, probs: Seq<int>, out: Seq<u8>)
    requires
        decoding(d, s, out),
        coding(s),
        s.run + bits.len() <= i32::MAX,
        probs_fit(bits, probs),
        put_bit_seq(s, bits, probs).error == 0,
        code_in(be_value(out), put_bit_seq(s, bits, probs), 8 * out.len() - 8),
        coder_scale(put_bit_seq(s, bits, probs)) + 8 <= 8 * out.len() - 8,
    ensures
        get_bit_seq(d, probs) == bits,
    decreases bits.len(),
{
    let c = be_value(out);
    let z = 8 * out.len() - 8;
    if bits.len() == 0 {
        assert(get_bit_seq(d, probs) =~= bits);
    } else {
        let b = bits[0];
        let p = probs[0];
        assert(0 <= p <= 255);
        let s1 = s.put_bit_step(b, p);
        let rb = bits.drop_first();
        let rp = probs.drop_first();
        assert(probs_fit(rb, rp)) by {
            assert forall|i: int| 0 <= i < rp.len() implies 0 <= #[trigger] rp[i] <= 255 by {
                assert(rp[i] == probs[i + 1]);
            }
        }
        lemma_put_bit_keeps_invariant(s, b, p);
        if s1.error != 0 {
            lemma_seq_keeps_error(s1, rb, rp);
        }
        lemma_put_bit_coding(s, b, p);
        lemma_seq_coding(c, s1, rb, rp, z);
        lemma_decode_bit(d, s, b, p, out);
        let d1 = d.get_bit_step(p).0;
        lemma_decode_seq(d1, s1, rb, rp, out);
        assert(get_bit_seq(d, probs) =~= bits);
    }
}

/// What the boolean encoder writes, the boolean decoder reads back, whatever
/// the probabilities: after `init`, one `put_bit` for each bit of `bits`
/// with the probability at the same index of `probs` and `finish` (with no
/// allocation error), a decoder initialized on the bytes that `finish`
/// returns reads `bits` back with `vp8_get_bit` and the same probabilities.
#[verifier::spinoff_prover]
pub proof fn lemma_read_back_put_bit_seq(
    expected_size: nat,
    bits: Seq<bool>,
    probs: Seq<int>,
    r0: BitReaderState,
)
    requires
        probs_fit(bits, probs),
        bits.len() + 18 <= i32::MAX,
        initial_writer_state().resized(expected_size as int).1,
        put_bit_seq(initial_writer_state().resized(expected_size as int).0, bits, probs).finished().error
            == 0,
    ensures
        ({
            let w = put_bit_seq(initial_writer_state().resized(expected_size as int).0, bits, probs).finished();
            let out = w.buf.take(w.pos);
            let d = buffer_set(
                BitReaderState { range: 254, value: 0, bits: -8, eof: 0, ..r0 },
                out,
                out.len() as int,
            ).loaded();
            get_bit_seq(d, probs) == bits
        }),
{
    lemma2_to64();
    let s0 = initial_writer_state().resized(expected_size as int).0;
    let w = put_bit_seq(s0, bits, probs).finished();
    let out = w.buf.take(w.pos);
    let d = buffer_set(
        BitReaderState { range: 254, value: 0, bits: -8, eof: 0, ..r0 },
        out,
        out.len() as int,
    ).loaded();
    if bits.len() == 0 {
        assert(get_bit_seq(d, probs) =~= bits);
    } else {
        lemma_byte_scale_step(0);
        assert(s0.buf.take(0) =~= Seq::<u8>::empty());
        assert(written_value(s0) == 0);
        assert(coding(s0));
        let sn = put_bit_seq(s0, bits, probs);
        lemma_seq_wf(s0, bits, probs);
        let k = (9 - sn.nb_bits) as nat;
        if sn.error != 0 {
            lemma_steps_keep_error(sn, 0, k);
            let t = sn.put_bits_steps(0, k);
            let u = BitWriterState { nb_bits: 0, ..t };
            let (r, ok) = u.resized(u.run + 1);
            assert(r.error != 0);
            assert(sn.finished() == u.flushed());
            assert(false);
        }
        let z = 8 * out.len() - 8;
        let c = be_value(out);
        lemma_seq_coding(c, s0, bits, probs, z);
        lemma_finish_code(sn);
        let kk = (z - coder_scale(sn)) as nat;
        lemma_pow2_pos(kk);
        assert(c < (coder_low(sn) + sn.range + 1) * pow2(kk)) by (nonlinear_arith)
            requires
                c == coder_low(sn) * pow2(kk),
                pow2(kk) > 0,
                sn.range >= 0,
        ;
        assert(code_in(c, sn, z));
        lemma_shifted_in_small(0, out[0] as u64);
        lemma_be_take_next(out, 0);
        assert(out.take(0) =~= Seq::<u8>::empty());
        assert(decoding(d, s0, out));
        lemma_decode_seq(d, s0, bits, probs, out);
    }
}

/// Bits keep the encoder's invariant and add at most one to the run each.
proof fn lemma_seq_wf(s: BitWriterState, bits: Seq<bool>, probs: Seq<int>)
    requires
        s.wf(),
        s.run + bits.len() <= i32::MAX,
        probs_fit(bits, probs),
    ensures
        put_bit_seq(s, bits, probs).wf(),
        put_bit_seq(s, bits, probs).run <= s.run + bits.len(),
    decreases bits.len(),
{
    if bits.len() > 0 {
        assert(0 <= probs[0] <= 255);
        let rp = probs.drop_first();
        assert(probs_fit(bits.drop_first(), rp)) by {
            assert forall|i: int| 0 <= i < rp.len() implies 0 <= #[trigger] rp[i] <= 255 by {
                assert(rp[i] == probs[i + 1]);
            }
        }
        lemma_put_bit_keeps_invariant(s, bits[0], probs[0]);
        lemma_seq_wf(s.put_bit_step(bits[0], probs[0]), bits.drop_first(), rp);
    }
}

} // verus!
