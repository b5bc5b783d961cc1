//! Boolean decoder and bit reader utilities.

use vstd::prelude::*;
use vstd::arithmetic::power2::*;

verus! {

/// Number of doublings that bring a range (stored as range - 1) back into
/// [128, 255]: the content of the `kVP8Log2Range` table.
pub open spec fn log2_range(r: int) -> int {
    if r < 1 {
        7
    } else if r < 3 {
        6
    } else if r < 7 {
        5
    } else if r < 15 {
        4
    } else if r < 31 {
        3
    } else if r < 63 {
        2
    } else if r < 127 {
        1
    } else {
        0
    }
}

/// The factor `2^log2_range(r)` by which renormalization scales a range.
pub open spec fn range_scale(r: int) -> int {
    if r < 1 {
        128
    } else if r < 3 {
        64
    } else if r < 7 {
        32
    } else if r < 15 {
        16
    } else if r < 31 {
        8
    } else if r < 63 {
        4
    } else if r < 127 {
        2
    } else {
        1
    }
}

/// The renormalized range (stored as range - 1): the content of the
/// `kVP8NewRange` table.
pub open spec fn new_range(r: int) -> int {
    (r + 1) * range_scale(r) - 1
}

/// The scale factor is the power of two of the shift.
pub proof fn lemma_range_scale_is_pow2(r: int)
    ensures
        range_scale(r) == pow2(log2_range(r) as nat),
{
    lemma2_to64();
}

/// Looks up `kVP8Log2Range[r]`.
pub fn vp8_log2_range(r: u32) -> (shift: u8)
    requires
        r < 128,
    ensures
        shift == log2_range(r as int),
        shift <= 7,
{
    if r < 1 {
        7
    } else if r < 3 {
        6
    } else if r < 7 {
        5
    } else if r < 15 {
        4
    } else if r < 31 {
        3
    } else if r < 63 {
        2
    } else if r < 127 {
        1
    } else {
        0
    }
}

/// Looks up `kVP8NewRange[r]`.
pub fn vp8_new_range(r: u32) -> (nr: u8)
    requires
        r < 128,
    ensures
        nr == new_range(r as int),
        127 <= nr <= 254,
{
    let v: u32 = if r < 1 {
        (r + 1) * 128 - 1
    } else if r < 3 {
        (r + 1) * 64 - 1
    } else if r < 7 {
        (r + 1) * 32 - 1
    } else if r < 15 {
        (r + 1) * 16 - 1
    } else if r < 31 {
        (r + 1) * 8 - 1
    } else if r < 63 {
        (r + 1) * 4 - 1
    } else if r < 127 {
        (r + 1) * 2 - 1
    } else {
        r
    };
    v as u8
}


/// Size in bytes of the decoder's bit window (`bit_t`): 8 where `usize`
/// has 64 bits, 4 where it has 32.
pub open spec fn bit_window_bytes() -> int {
    if usize::BITS == 64 {
        8
    } else {
        4
    }
}

/// The size of the bit window of this target, `bit_window_bytes()`.
pub fn vp8_bit_window_bytes() -> (n: usize)
    ensures
        n == bit_window_bytes(),
{
    if usize::BITS == 64 {
        8
    } else {
        4
    }
}

/// The window after the byte `byte` is shifted in at its low end; a 4-byte
/// window keeps its low 32 bits.
pub open spec fn shifted_in(value: u64, byte: u64) -> u64 {
    let v = (value << 8u64) | byte;
    if usize::BITS == 64 {
        v
    } else {
        v & 0xffff_ffff
    }
}

/// Abstract state of the boolean decoder.
pub struct BitReaderState {
    pub value: u64,
    pub range: int,
    pub bits: int,
    pub data: Seq<u8>,
    pub buf: int,
    pub buf_end: int,
    pub buf_max: int,
    pub eof: int,
}

impl BitReaderState {
    /// The decoder's invariant: the range (stored as range - 1) is in
    /// [127, 254], the number of valid bits is a shift amount of the window,
    /// the value fits in the window and the read position is inside the data.
    pub open spec fn wf(self) -> bool {
        &&& 127 <= self.range <= 254
        &&& 0 <= self.bits < 8 * bit_window_bytes()
        &&& usize::BITS != 64 ==> self.value <= 0xffff_ffff
        &&& 0 <= self.buf <= self.buf_end <= self.data.len()
    }

    /// Loads the next byte at the low end of the value; once the data is
    /// exhausted, one zero byte is loaded and `eof` is set; after that the
    /// bit count is reset to 0.
    pub open spec fn loaded(self) -> BitReaderState {
        if self.buf < self.buf_end {
            BitReaderState {
                value: shifted_in(self.value, self.data[self.buf] as u64),
                buf: self.buf + 1,
                bits: self.bits + 8,
                ..self
            }
        } else if self.eof == 0 {
            BitReaderState { value: shifted_in(self.value, 0), bits: self.bits + 8, eof: 1, ..self }
        } else {
            BitReaderState { bits: 0, ..self }
        }
    }

    /// Decodes one bit with probability `prob / 256` of being 0: the bits
    /// of the value from `bits` up (taken as 32 bits) are compared with
    /// `split`; a 1 removes `split + 1` from the range and `split + 1` at
    /// position `bits` from the value.  A range below 127 is renormalized by
    /// table, the shift being taken from the valid bits; bytes are loaded
    /// when the bit count drops below 0.
    pub open spec fn get_bit_step(self, prob: int) -> (BitReaderState, bool) {
        let split = (self.range * prob) / 256;
        let unit = pow2(self.bits as nat) as int;
        let bit = (self.value as int / unit) % 0x1_0000_0000 > split;
        let s1 = if bit {
            BitReaderState {
                range: self.range - split - 1,
                value: (self.value - (split + 1) * unit) as u64,
                ..self
            }
        } else {
            BitReaderState { range: split, ..self }
        };
        let s2 = if s1.range < 127 {
            let shift = log2_range(s1.range);
            let s3 = BitReaderState { range: new_range(s1.range), bits: s1.bits - shift, ..s1 };
            if s3.bits < 0 {
                s3.loaded()
            } else {
                s3
            }
        } else {
            s1
        };
        (s2, bit)
    }

    /// Decodes `n` bits with probability one half each, most significant
    /// first, into an unsigned value.
    pub open spec fn get_value_step(self, n: int) -> (BitReaderState, int)
        decreases n,
    {
        if n <= 0 {
            (self, 0)
        } else {
            let (s1, b) = self.get_bit_step(0x80);
            let (s2, rest) = s1.get_value_step(n - 1);
            (s2, (if b { pow2((n - 1) as nat) as int } else { 0 }) + rest)
        }
    }

    /// Decodes an `n`-bit magnitude and then a sign bit (1 for negative); the
    /// magnitude is taken as an `i32` (wrapping).
    pub open spec fn get_signed_value_step(self, n: int) -> (BitReaderState, int) {
        let (s1, v) = self.get_value_step(n);
        let (s2, sign) = s1.get_bit_step(0x80);
        let m = (v as u32) as i32;
        (s2, if sign { -m } else { m as int })
    }
}

/// The state that setting a buffer of `size` bytes at the start of `data`
/// makes: read position at its start, end after its last byte, and packed
/// reads allowed up to `size - bit_window_bytes() + 1`.
pub open spec fn buffer_set(s: BitReaderState, data: Seq<u8>, size: int) -> BitReaderState {
    BitReaderState {
        data: data,
        buf: 0,
        buf_end: size,
        buf_max: if size >= bit_window_bytes() { size - bit_window_bytes() + 1 } else { 0 },
        ..s
    }
}

/// Boolean decoder.
pub struct VP8BitReader {
    /// current value
    pub value_: u64,
    /// current range minus 1, in [127, 254]
    pub range_: u32,
    /// number of valid bits left
    pub bits_: i32,
    /// the bytes the read positions point into
    pub data_: Vec<u8>,
    /// next byte to be read (offset into `data_`)
    pub buf_: usize,
    /// end of the read buffer
    pub buf_end_: usize,
    /// max packed-read position
    pub buf_max_: usize,
    /// 1 if the input is exhausted
    pub eof_: i32,
}

impl View for VP8BitReader {
    type V = BitReaderState;

    open spec fn view(&self) -> BitReaderState {
        BitReaderState {
            value: self.value_,
            range: self.range_ as int,
            bits: self.bits_ as int,
            data: self.data_@,
            buf: self.buf_ as int,
            buf_end: self.buf_end_ as int,
            buf_max: self.buf_max_ as int,
            eof: self.eof_ as int,
        }
    }
}

impl Default for VP8BitReader {
    fn default() -> (r: Self)
        ensures
            r.value_ == 0 && r.range_ == 0 && r.bits_ == 0 && r.data_@ == Seq::<u8>::empty(),
            r.buf_ == 0 && r.buf_end_ == 0 && r.buf_max_ == 0 && r.eof_ == 0,
    {
        VP8BitReader {
            value_: 0,
            range_: 0,
            bits_: 0,
            data_: Vec::new(),
            buf_: 0,
            buf_end_: 0,
            buf_max_: 0,
            eof_: 0,
        }
    }
}

/// Initializes the bit reader and the boolean decoder on the first `size`
/// bytes of `start` (the reader keeps all of `start` as the memory its
/// positions point into), and loads the first byte.
pub fn vp8_init_bit_reader(br: &mut VP8BitReader, start: &[u8], size: usize)
    requires
        size <= start@.len(),
        size < 0x8000_0000,
    ensures
        final(br)@ == buffer_set(
            BitReaderState { range: 254, value: 0, bits: -8, eof: 0, ..old(br)@ },
            start@,
            size as int,
        ).loaded(),
        final(br)@.wf(),
{
    br.range_ = 255 - 1;
    br.value_ = 0;
    br.bits_ = -8;
    br.eof_ = 0;
    vp8_bit_reader_set_buffer(br, start, size);
    vp8_load_new_bytes(br);
    proof {
        lemma2_to64();
    }
}

/// Sets the working read buffer to the first `size` bytes of `start`.
pub fn vp8_bit_reader_set_buffer(br: &mut VP8BitReader, start: &[u8], size: usize)
    requires
        size <= start@.len(),
    ensures
        final(br)@ == buffer_set(old(br)@, start@, size as int),
{
    let mut data: Vec<u8> = Vec::new();
    let mut i: usize = 0;
    while i < start.len()
        invariant
            i <= start@.len(),
            data@ == start@.take(i as int),
        decreases start@.len() - i,
    {
        data.push(start[i]);
        i = i + 1;
    }
    assert(data@ =~= start@);
    br.data_ = data;
    br.buf_ = 0;
    br.buf_end_ = size;
    let window: usize = vp8_bit_window_bytes();
    br.buf_max_ = if size >= window {
        size - window + 1
    } else {
        0
    };
}

/// Displaces the read positions by `offset` bytes (nothing happens when no
/// buffer is set).
pub fn vp8_remap_bit_reader(br: &mut VP8BitReader, offset: isize)
    requires
        old(br).data_@.len() > 0 ==> {
            &&& 0 <= old(br).buf_ + offset <= old(br).data_@.len()
            &&& 0 <= old(br).buf_end_ + offset <= old(br).data_@.len()
            &&& 0 <= old(br).buf_max_ + offset <= old(br).data_@.len()
        },
    ensures
        old(br).data_@.len() > 0 ==> final(br)@ == (BitReaderState {
            buf: old(br).buf_ + offset,
            buf_end: old(br).buf_end_ + offset,
            buf_max: old(br).buf_max_ + offset,
            ..old(br)@
        }),
        old(br).data_@.len() == 0 ==> final(br)@ == old(br)@,
{
    if br.data_.len() > 0 {
        br.buf_ = displaced(br.buf_, offset);
        br.buf_end_ = displaced(br.buf_end_, offset);
        br.buf_max_ = displaced(br.buf_max_, offset);
    }
}

/// The position `p` moved by `offset` bytes.
fn displaced(p: usize, offset: isize) -> (q: usize)
    requires
        0 <= p + offset <= usize::MAX,
    ensures
        q == p + offset,
{
    if offset >= 0 {
        p + offset as usize
    } else {
        let back: usize = ((-(offset + 1)) as usize) + 1;
        p - back
    }
}

/// Loads the next byte into the decoder's value (see `BitReaderState::loaded`).
/// The invariant survives when 8 more valid bits still form a shift amount
/// of the window.
pub fn vp8_load_new_bytes(br: &mut VP8BitReader)
    requires
        old(br).bits_ <= i32::MAX - 8,
        old(br).buf_ <= old(br).buf_end_ <= old(br).data_@.len(),
    ensures
        final(br)@ == old(br)@.loaded(),
        old(br)@.wf() && old(br).bits_ + 8 < 8 * bit_window_bytes() ==> final(br)@.wf(),
        usize::BITS != 64 && old(br).value_ <= 0xffff_ffff ==> final(br).value_ <= 0xffff_ffff,
{
    if br.buf_ < br.buf_end_ {
        br.value_ = shift_in(br.value_, br.data_[br.buf_] as u64);
        br.buf_ = br.buf_ + 1;
        br.bits_ = br.bits_ + 8;
    } else if br.eof_ == 0 {
        br.value_ = shift_in(br.value_, 0);
        br.bits_ = br.bits_ + 8;
        br.eof_ = 1;
    } else {
        br.bits_ = 0;
    }
}

/// Shifts `byte` in at the low end of the window `value`.
fn shift_in(value: u64, byte: u64) -> (v: u64)
    requires
        byte < 256,
    ensures
        v == shifted_in(value, byte),
        usize::BITS != 64 ==> v <= 0xffff_ffff,
{
    let v: u64 = (value << 8u64) | byte;
    if usize::BITS == 64 {
        v
    } else {
        assert(v & 0xffff_ffff <= 0xffff_ffff) by (bit_vector);
        v & 0xffff_ffff
    }
}

/// Whether decoding a bit with probability `prob` keeps the decoder's range
/// in bounds: `split` must not exceed the range, and must stay below it when
/// the bit decodes as 1.
pub open spec fn get_bit_ok(s: BitReaderState, prob: int) -> bool {
    let split = (s.range * prob) / 256;
    &&& 0 <= prob
    &&& split <= s.range
    &&& s.get_bit_step(prob).1 ==> split < s.range
}

/// Reads one bit from the boolean decoder, with probability `prob / 256` of
/// it being 0.
pub fn vp8_get_bit(br: &mut VP8BitReader, prob: i32) -> (bit: i32)
    requires
        old(br)@.wf(),
        get_bit_ok(old(br)@, prob as int),
    ensures
        final(br)@.wf(),
        bit == 0 || bit == 1,
        (final(br)@, bit == 1) == old(br)@.get_bit_step(prob as int),
{
    let ghost s0 = br@;
    assert(br.range_ * prob <= 254 * 256 + 255) by (nonlinear_arith)
        requires
            br.range_ <= 254,
            0 <= prob,
            (br.range_ * prob) / 256 <= br.range_,
    ;
    let product: u32 = br.range_ * (prob as u32);
    assert(product >> 8 == product / 256) by (bit_vector);
    let split: u32 = product >> 8u32;
    let pos: u64 = br.bits_ as u64;
    let value: u64 = br.value_;
    proof {
        vstd::bits::lemma_u64_shr_is_div(value, pos);
        lemma_pow2_pos(pos as nat);
    }
    let window: u32 = #[verifier::truncate] ((value >> pos) as u32);
    let ghost unit: int = pow2(pos as nat) as int;
    assert(((value >> pos) as u32) as int == (value >> pos) % 0x1_0000_0000) by (bit_vector);
    let bit: i32;
    if window > split {
        proof {
            assert((split + 1) * unit <= (value as int / unit) * unit) by (nonlinear_arith)
                requires
                    split + 1 <= value as int / unit,
                    unit > 0,
            ;
            vstd::arithmetic::div_mod::lemma_fundamental_div_mod(value as int, unit);
            vstd::arithmetic::div_mod::lemma_mod_bound(value as int, unit);
            vstd::arithmetic::mul::lemma_mul_is_commutative(unit, value as int / unit);
            vstd::bits::lemma_u64_shl_is_mul((split + 1) as u64, pos);
        }
        br.range_ = br.range_ - (split + 1);
        br.value_ = value - (((split + 1) as u64) << pos);
        bit = 1;
    } else {
        br.range_ = split;
        bit = 0;
    }
    if br.range_ < 0x7f {
        let shift: u8 = vp8_log2_range(br.range_);
        br.range_ = vp8_new_range(br.range_) as u32;
        br.bits_ = br.bits_ - shift as i32;
        if br.bits_ < 0 {
            vp8_load_new_bytes(br);
        }
    }
    proof {
        lemma2_to64();
    }
    bit
}

/// The `n` low bits set (`n < 32`).
pub open spec fn low_mask32(n: u32) -> u32 {
    ((1u32 << n) - 1) as u32
}

/// Reads `bits` bits (each with probability one half), most significant
/// first, as an unsigned value.
pub fn vp8_get_value(br: &mut VP8BitReader, bits: i32) -> (v: u32)
    requires
        old(br)@.wf(),
        bits <= 32,
    ensures
        final(br)@.wf(),
        (final(br)@, v as int) == old(br)@.get_value_step(bits as int),
{
    let ghost s0 = br@;
    let mut v: u32 = 0;
    let mut n: i32 = bits;
    assert(0u32 & low_mask32(bits as u32) == 0) by (bit_vector);
    while n > 0
        invariant
            br@.wf(),
            n <= 32,
            n == 32 ==> v == 0,
            0 <= n < 32 ==> v & low_mask32(n as u32) == 0,
            s0.get_value_step(bits as int) == (br@.get_value_step(n as int).0, v + br@.get_value_step(
                n as int,
            ).1),
        decreases n,
    {
        let ghost s1 = br@;
        let b: i32 = vp8_get_bit(br, 0x80);
        let k: u32 = (n - 1) as u32;
        let bb: u32 = b as u32;
        proof {
            lemma2_to64();
            vstd::bits::lemma_u32_pow2_no_overflow(k as nat);
            if b == 1 {
                assert(bb == 1);
            } else {
                assert(bb == 0);
            }
            assert(bb * pow2(k as nat) == if b == 1 { pow2(k as nat) as int } else { 0 });
            vstd::bits::lemma_u32_shl_is_mul(bb, k);
        }
        assert(bb <= 1 && k < 32 && (k == 31 ==> v == 0) && (k < 31 ==> v & low_mask32((k + 1) as u32) == 0) ==> {
            &&& v | (bb << k) == v + (bb << k)
            &&& (v | (bb << k)) & low_mask32(k) == 0
        }) by (bit_vector);
        v = v | (bb << k);
        n = n - 1;
    }
    v
}

/// A value read in `n` bits is below `2^n` (and 0 for no bits).
pub proof fn lemma_get_value_bound(s: BitReaderState, n: int)
    ensures
        0 <= s.get_value_step(n).1 < pow2(if n <= 0 { 0 } else { n as nat }),
    decreases n,
{
    lemma2_to64();
    if n > 0 {
        let (s1, b) = s.get_bit_step(0x80);
        lemma_get_value_bound(s1, n - 1);
        if n > 1 {
            lemma_pow2_unfold(n as nat);
        }
    }
}

/// Whether reading a signed value of `bits` bits stays in `i32`: a magnitude
/// of 2^31 must not come with a negative sign.
pub open spec fn get_signed_value_ok(s: BitReaderState, bits: int) -> bool {
    let (s1, v) = s.get_value_step(bits);
    &&& bits <= 32
    &&& v == 0x8000_0000 ==> !s1.get_bit_step(0x80).1
}

/// A signed read is the unsigned read of `n` bits (the magnitude) followed
/// by one bit at probability one half (the sign, 1 for negative): it ends
/// where the sign bit leaves the decoder, and its value is the magnitude,
/// negated when the sign bit is 1.
pub proof fn lemma_signed_value_is_magnitude_then_sign(s: BitReaderState, n: int)
    ensures
        ({
            let (s1, v) = s.get_value_step(n);
            let (s2, negative) = s1.get_bit_step(0x80);
            let (t, r) = s.get_signed_value_step(n);
            &&& t == s2
            &&& v < 0x8000_0000 ==> r == if negative { -v } else { v }
        }),
{
    let (s1, v) = s.get_value_step(n);
    lemma_get_value_bound(s, n);
    lemma2_to64();
    if n > 32 {
        lemma_pow2_strictly_increases(32, n as nat);
    }
    if v < 0x8000_0000 {
        assert(((v as u32) as i32) as int == v);
    }
}

/// Reads a magnitude of `bits` bits followed by a sign bit.
pub fn vp8_get_signed_value(br: &mut VP8BitReader, bits: i32) -> (r: i32)
    requires
        old(br)@.wf(),
        get_signed_value_ok(old(br)@, bits as int),
    ensures
        final(br)@.wf(),
        (final(br)@, r as int) == old(br)@.get_signed_value_step(bits as int),
        ({
            let (s1, v) = old(br)@.get_value_step(bits as int);
            let (s2, negative) = s1.get_bit_step(0x80);
            &&& final(br)@ == s2
            &&& v < 0x8000_0000 ==> r == if negative { -v } else { v }
            &&& v == 0x8000_0000 ==> r == i32::MIN
        }),
{
    let value: u32 = vp8_get_value(br, bits);
    assert(value != 0x8000_0000 ==> (value as i32) != i32::MIN) by (bit_vector);
    assert((value == 0x8000_0000 ==> (value as i32) == i32::MIN) && (value < 0x8000_0000 ==> (value
        as i32) as int == value as int)) by (bit_vector);
    if vp8_get_bit(br, 0x80) != 0 {
        -(value as i32)
    } else {
        value as i32
    }
}

} // verus!
