//! Miscellaneous common utility functions.

use vstd::prelude::*;
use vstd::arithmetic::div_mod::*;
use vstd::arithmetic::mul::*;
use vstd::std_specs::bits::{u32_leading_zeros, u32_trailing_zeros, axiom_u32_leading_zeros, axiom_u32_trailing_zeros};

verus! {

/// Maximum amount of memory that the library ever tries to allocate:
/// 16 GiB where `usize` has 64 bits, and 2 GiB less 64 KiB where it has 32.
pub open spec fn max_allocable_memory() -> int {
    if usize::BITS == 64 {
        0x4_0000_0000
    } else {
        0x8000_0000 - 0x1_0000
    }
}

/// The allocation limit of this target, `max_allocable_memory()`.
pub fn webp_max_allocable_memory() -> (m: u64)
    ensures
        m == max_allocable_memory(),
{
    if usize::BITS == 64 {
        0x4_0000_0000
    } else {
        0x8000_0000 - 0x1_0000
    }
}

/// Whether `size` survives the round trip through `usize`, i.e. can be
/// allocated without overflow.
pub fn check_size_overflow(size: u64) -> (ok: bool)
    ensures
        ok == (size <= usize::MAX),
{
    size == (#[verifier::truncate] (size as usize)) as u64
}

/// Whether allocating `nmemb` elements of `size` bytes stays within
/// the allocation limit and `usize` (always true for no element).
pub fn check_size_arguments_overflow(nmemb: u64, size: usize) -> (ok: bool)
    ensures
        ok == check_size_arguments_ok(nmemb as int, size as int),
{
    if nmemb == 0 {
        return true;
    }
    let limit: u64 = webp_max_allocable_memory();
    if size as u64 > limit / nmemb {
        return false;
    }
    assert(nmemb * size <= limit) by (nonlinear_arith)
        requires
            nmemb > 0,
            size <= limit / nmemb,
    ;
    check_size_overflow(nmemb * size as u64)
}

/// Number of bytes that an allocation of `n` bytes gets: `n`, or a single
/// byte when `n` exceeds `isize::MAX` (no allocation layout can describe
/// it, and the allocator falls back to the layout of one byte).
pub open spec fn alloc_len(n: int) -> int {
    if n > isize::MAX {
        1
    } else {
        n
    }
}

/// Allocates `nmemb * size` bytes after checking the size arguments
/// (`None` when they are refused).
#[allow(non_snake_case)]
pub fn WebPSafeMalloc(nmemb: u64, size: usize) -> (r: Option<Vec<u8>>)
    requires
        nmemb > 0,
        size > 0,
    ensures
        r is Some <==> check_size_arguments_ok(nmemb as int, size as int),
        r matches Some(v) ==> v@.len() == alloc_len(nmemb * size),
{
    WebPSafeCalloc(nmemb, size)
}

/// Whether the size arguments of an allocation are accepted: no element, or
/// at most `max_allocable_memory()` bytes that fit in `usize`.
pub open spec fn check_size_arguments_ok(nmemb: int, size: int) -> bool {
    nmemb == 0 || (size <= max_allocable_memory() / nmemb && nmemb * size <= usize::MAX)
}

/// Allocates `nmemb * size` zeroed bytes after checking the size arguments
/// (`None` when they are refused).
#[allow(non_snake_case)]
pub fn WebPSafeCalloc(nmemb: u64, size: usize) -> (r: Option<Vec<u8>>)
    requires
        nmemb > 0,
        size > 0,
    ensures
        r is Some <==> check_size_arguments_ok(nmemb as int, size as int),
        r matches Some(v) ==> v@ == Seq::new(alloc_len(nmemb * size) as nat, |i: int| 0u8),
{
    if !check_size_arguments_overflow(nmemb, size) {
        return None;
    }
    assert(nmemb * size > 0) by (nonlinear_arith)
        requires
            nmemb > 0,
            size > 0,
    ;
    let total: usize = (nmemb * size as u64) as usize;
    let n: usize = if total > isize::MAX as usize {
        1
    } else {
        total
    };
    let mut v: Vec<u8> = Vec::new();
    let mut i: usize = 0;
    while i < n
        invariant
            i <= n,
            v@ == Seq::new(i as nat, |k: int| 0u8),
        decreases n - i,
    {
        v.push(0u8);
        i = i + 1;
        assert(v@ =~= Seq::new(i as nat, |k: int| 0u8));
    }
    Some(v)
}

/// Byte `k` of the two's-complement representation of `val`.
pub open spec fn le_byte(val: int, k: int) -> u8 {
    (if k == 0 {
        val % 256
    } else if k == 1 {
        (val / 256) % 256
    } else if k == 2 {
        (val / 65536) % 256
    } else {
        (val / 16777216) % 256
    }) as u8
}

/// The little-endian 16-bit value at the start of `s`.
pub open spec fn le16(s: Seq<u8>) -> int {
    s[0] + 256 * s[1]
}

/// The little-endian 24-bit value at the start of `s`.
pub open spec fn le24(s: Seq<u8>) -> int {
    s[0] + 256 * s[1] + 65536 * s[2]
}

/// The little-endian 32-bit value at the start of `s`.
pub open spec fn le32(s: Seq<u8>) -> int {
    s[0] + 256 * s[1] + 65536 * s[2] + 16777216 * s[3]
}

/// `s` with the low 16 bits of `val` stored little-endian at `at`.
pub open spec fn with_le16(s: Seq<u8>, at: int, val: int) -> Seq<u8> {
    s.update(at, le_byte(val, 0)).update(at + 1, le_byte(val, 1))
}

/// `s` with the low 24 bits of `val` stored little-endian at its start.
pub open spec fn with_le24(s: Seq<u8>, val: int) -> Seq<u8> {
    with_le16(s, 0, val).update(2, le_byte(val, 2))
}

/// `s` with `val` stored little-endian (32 bits) at its start.
pub open spec fn with_le32(s: Seq<u8>, val: int) -> Seq<u8> {
    with_le16(with_le16(s, 0, val), 2, val / 65536)
}

/// Reads 16 bits stored in little-endian order.
pub fn get_le16(data: &[u8]) -> (r: i32)
    requires
        data@.len() >= 2,
    ensures
        r == le16(data@),
{
    let a: u8 = data[0];
    let b: u8 = data[1];
    assert((a as i32) | ((b as i32) << 8u32) == a + 256 * b) by (bit_vector);
    (a as i32) | ((b as i32) << 8u32)
}

/// Reads 24 bits stored in little-endian order.
pub fn get_le24(data: &[u8]) -> (r: i32)
    requires
        data@.len() >= 3,
    ensures
        r == le24(data@),
{
    let lo: i32 = get_le16(data);
    let c: u8 = data[2];
    assert(0 <= lo < 65536 ==> lo | ((c as i32) << 16u32) == lo + 65536 * c) by (bit_vector);
    lo | ((c as i32) << 16u32)
}

/// Reads 32 bits stored in little-endian order.
pub fn get_le32(data: &[u8]) -> (r: u32)
    requires
        data@.len() >= 4,
    ensures
        r == le32(data@),
{
    let lo: i32 = get_le16(data);
    let c: u8 = data[2];
    let d: u8 = data[3];
    let hi: i32 = (c as i32) | ((d as i32) << 8u32);
    assert(hi == c + 256 * d) by (bit_vector)
        requires
            hi == (c as i32) | ((d as i32) << 8u32),
    ;
    assert(0 <= lo < 65536 && 0 <= hi < 65536 ==> (lo as u32) | ((hi as u32) << 16u32) == lo
        + 65536 * hi) by (bit_vector);
    (lo as u32) | ((hi as u32) << 16u32)
}

/// Stores the low 16 bits of `val` in little-endian order.
pub fn put_le16(data: &mut [u8], val: i32)
    requires
        old(data)@.len() >= 2,
        val < 0x1_0000,
    ensures
        final(data)@ == with_le16(old(data)@, 0, val as int),
{
    put_le16_at(data, 0, val);
}

/// Stores the low 16 bits of `val` in little-endian order at `at`.
fn put_le16_at(data: &mut [u8], at: usize, val: i32)
    requires
        at + 2 <= old(data)@.len(),
    ensures
        final(data)@ == with_le16(old(data)@, at as int, val as int),
{
    assert((val as u8) as int == val % 256 && ((val >> 8u32) as u8) as int == (val / 256) % 256)
        by (bit_vector);
    data[at] = val as u8;
    data[at + 1] = (val >> 8u32) as u8;
}

/// Stores the low 24 bits of `val` in little-endian order.
pub fn put_le24(data: &mut [u8], val: i32)
    requires
        old(data)@.len() >= 3,
        val < 0x100_0000,
    ensures
        final(data)@ == with_le24(old(data)@, val as int),
{
    let lo: i32 = val & 0xffff;
    assert(lo % 256 == val % 256 && (lo / 256) % 256 == (val / 256) % 256
        && ((val >> 16u32) as u8) as int == (val / 65536) % 256) by (bit_vector)
        requires
            lo == val & 0xffff,
    ;
    put_le16_at(data, 0, lo);
    data[2] = (val >> 16u32) as u8;
}

/// Stores `val` in little-endian order.
pub fn put_le32(data: &mut [u8], val: u32)
    requires
        old(data)@.len() >= 4,
    ensures
        final(data)@ == with_le32(old(data)@, val as int),
{
    let lo: i32 = (val & 0xffff) as i32;
    let hi: i32 = (val >> 16u32) as i32;
    assert(lo % 256 == val % 256 && (lo / 256) % 256 == (val / 256) % 256 && hi == val / 65536)
        by (bit_vector)
        requires
            lo == (val & 0xffff) as i32,
            hi == (val >> 16u32) as i32,
    ;
    put_le16_at(data, 0, lo);
    put_le16_at(data, 2, hi);
}

/// Returns `floor(log2(n))` for `n > 0` (and -1 for 0).
pub fn bits_log2_floor(n: u32) -> (r: i32)
    ensures
        n == 0 ==> r == -1,
        n > 0 ==> 0 <= r <= 31 && n >> (r as u32) == 1,
{
    let lz: u32 = n.leading_zeros();
    proof {
        axiom_u32_leading_zeros(n);
    }
    if n > 0 {
        let k: u32 = 31 - lz;
        assert(k < 32 && (n >> k) & 1 != 0 && (n >> k) >> 1u32 == 0 ==> n >> k == 1) by (bit_vector);
        assert((n >> (32 - lz) as u32) == (n >> k) >> 1u32) by (bit_vector)
            requires
                k == 31 - lz,
                lz < 32,
        ;
    }
    31 - lz as i32
}

/// Counts the trailing zero bits of `n` (32 for 0).
pub fn bits_ctz(n: u32) -> (r: i32)
    ensures
        r == u32_trailing_zeros(n),
        n == 0 <==> r == 32,
        n != 0 ==> (n >> (r as u32)) & 1 == 1 && n % (1u32 << (r as u32)) as u32 == 0,
{
    let tz: u32 = n.trailing_zeros();
    proof {
        axiom_u32_trailing_zeros(n);
        if n != 0 {
            assert(tz < 32 && n << ((32 - tz) as u32) == 0 ==> n % (1u32 << tz) as u32 == 0)
                by (bit_vector);
        }
    }
    tz as i32
}

/// Whether byte `k` of a destination plane with stride `stride` lies in one of
/// the `height` rows of `width` bytes that a plane copy writes.
pub open spec fn in_plane(k: int, stride: int, width: int, height: int) -> bool {
    if stride > 0 {
        0 <= k && k / stride < height && k % stride < width
    } else {
        0 <= k && height >= 1 && k < width
    }
}

/// The source index of destination byte `k` in a plane copy.
pub open spec fn plane_source(k: int, src_stride: int, dst_stride: int) -> int {
    if dst_stride > 0 {
        (k / dst_stride) * src_stride + k % dst_stride
    } else {
        k
    }
}

/// `dst` after copying `height` rows of `width` bytes from `src`.
pub open spec fn plane_copied(
    src: Seq<u8>,
    src_stride: int,
    dst: Seq<u8>,
    dst_stride: int,
    width: int,
    height: int,
) -> Seq<u8> {
    Seq::new(
        dst.len(),
        |k: int|
            if in_plane(k, dst_stride, width, height) {
                src[plane_source(k, src_stride, dst_stride)]
            } else {
                dst[k]
            },
    )
}

/// Whether a plane with the given stride fits `height` rows of `width`
/// bytes in a buffer of `len` bytes (a negative stride only for one row).
pub open spec fn plane_fits(len: int, stride: int, width: int, height: int) -> bool {
    &&& stride >= 0 || height == 1
    &&& stride >= 0 ==> (height - 1) * stride + width <= len && height * stride <= usize::MAX
    &&& stride < 0 ==> width <= len
}

/// Copies `width` x `height` pixels from `src` to `dst` honoring the strides.
pub fn copy_plane(
    src: &[u8],
    src_stride: i32,
    dst: &mut [u8],
    dst_stride: i32,
    width: i32,
    height: i32,
)
    requires
        src_stride != i32::MIN && dst_stride != i32::MIN,
        width <= (if src_stride < 0 { -src_stride } else { src_stride as int }),
        width <= (if dst_stride < 0 { -dst_stride } else { dst_stride as int }),
        height >= 1 ==> {
            &&& width >= 0
            &&& plane_fits(src@.len() as int, src_stride as int, width as int, height as int)
            &&& plane_fits(old(dst)@.len() as int, dst_stride as int, width as int, height as int)
        },
    ensures
        final(dst)@ == plane_copied(
            src@,
            src_stride as int,
            old(dst)@,
            dst_stride as int,
            width as int,
            height as int,
        ),
{
    let ghost d0 = dst@;
    let src_len: usize = src.len();
    let mut src_ptr: usize = 0;
    let mut dst_ptr: usize = 0;
    let mut y: i32 = 0;
    while y < height
        invariant
            0 <= y <= height || height < 0,
            height < 0 ==> y == 0,
            y >= 1 ==> plane_fits(src@.len() as int, src_stride as int, width as int, height as int),
            y >= 1 ==> plane_fits(d0.len() as int, dst_stride as int, width as int, height as int),
            y < height ==> width >= 0 && plane_fits(src@.len() as int, src_stride as int, width as int, height as int)
                && plane_fits(d0.len() as int, dst_stride as int, width as int, height as int),
            width <= (if dst_stride < 0 { -dst_stride } else { dst_stride as int }),
            y < height && src_stride >= 0 ==> src_ptr == y * src_stride,
            y < height && dst_stride >= 0 ==> dst_ptr == y * dst_stride,
            y < height && src_stride < 0 ==> src_ptr == 0 && y == 0,
            y < height && dst_stride < 0 ==> dst_ptr == 0 && y == 0,
            dst@.len() == d0.len(),
            src@.len() == src_len,
            dst@ == plane_copied(src@, src_stride as int, d0, dst_stride as int, width as int, y as int),
        decreases height - y,
    {
        let mut x: usize = 0;
        let w: usize = width as usize;
        proof {
            if dst_stride >= 0 {
                lemma_mul_inequality(y as int, (height - 1) as int, dst_stride as int);
                assert(dst_ptr + w <= d0.len());
            }
            if src_stride >= 0 {
                lemma_mul_inequality(y as int, (height - 1) as int, src_stride as int);
                assert(src_ptr + w <= src@.len());
            }
        }
        while x < w
            invariant
                x <= w == width,
                0 <= y < height,
                src_ptr + w <= src@.len() == src_len,
                dst_ptr + w <= d0.len(),
                dst@.len() == d0.len(),
                dst_stride > 0 ==> dst_ptr == y * dst_stride && w <= dst_stride,
                dst_stride < 0 ==> dst_ptr == 0 && y == 0,
                dst_stride == 0 ==> w == 0,
                src_stride >= 0 ==> src_ptr == y * src_stride,
                src_stride < 0 ==> src_ptr == 0 && y == 0,
                forall|k: int|
                    #![trigger dst@[k]]
                    0 <= k < d0.len() ==> dst@[k] == (if in_plane(k, dst_stride as int, width as int, y as int)
                        || (dst_ptr <= k < dst_ptr + x) {
                        src@[plane_source(k, src_stride as int, dst_stride as int)]
                    } else {
                        d0[k]
                    }),
            decreases w - x,
        {
            proof {
                if dst_stride > 0 {
                    let k = dst_ptr + x;
                    lemma_fundamental_div_mod_converse(k, dst_stride as int, y as int, x as int);
                }
            }
            dst[dst_ptr + x] = src[src_ptr + x];
            x = x + 1;
        }
        proof {
            assert forall|k: int| 0 <= k < d0.len() implies in_plane(k, dst_stride as int, width as int, y + 1)
                == (in_plane(k, dst_stride as int, width as int, y as int) || (dst_ptr <= k < dst_ptr + w)) by {
                if dst_stride > 0 {
                    lemma_fundamental_div_mod(k, dst_stride as int);
                    if dst_ptr <= k < dst_ptr + w {
                        lemma_fundamental_div_mod_converse(k, dst_stride as int, y as int, k - dst_ptr);
                    }
                    let ds = dst_stride as int;
                    if k / ds == y && k % ds < width {
                        lemma_mul_is_commutative(ds, k / ds);
                        assert(k == y * ds + k % ds);
                    }
                }
            }
            let target = plane_copied(src@, src_stride as int, d0, dst_stride as int, width as int, (y + 1) as int);
            assert forall|k: int| 0 <= k < d0.len() implies dst@[k] == target[k] by {
                assert(in_plane(k, dst_stride as int, width as int, y + 1)
                    == (in_plane(k, dst_stride as int, width as int, y as int) || (dst_ptr <= k < dst_ptr + w)));
            }
            assert(dst@ =~= target);
        }
        proof {
            if src_stride >= 0 {
                lemma_mul_inequality((y + 1) as int, height as int, src_stride as int);
                lemma_mul_is_distributive_add_other_way(src_stride as int, y as int, 1);
            }
            if dst_stride >= 0 {
                lemma_mul_inequality((y + 1) as int, height as int, dst_stride as int);
                lemma_mul_is_distributive_add_other_way(dst_stride as int, y as int, 1);
            }
        }
        src_ptr = src_ptr + src_stride as usize;
        dst_ptr = dst_ptr + dst_stride as usize;
        y = y + 1;
    }
}

/// Reading back a 16-bit value stored little-endian gives the value.
pub proof fn lemma_le16_roundtrip(s: Seq<u8>, val: int)
    requires
        s.len() >= 2,
        0 <= val < 0x1_0000,
    ensures
        le16(with_le16(s, 0, val)) == val,
{
}

/// Reading back a 24-bit value stored little-endian gives the value.
pub proof fn lemma_le24_roundtrip(s: Seq<u8>, val: int)
    requires
        s.len() >= 3,
        0 <= val < 0x100_0000,
    ensures
        le24(with_le24(s, val)) == val,
{
}

/// Reading back a 32-bit value stored little-endian gives the value.
pub proof fn lemma_le32_roundtrip(s: Seq<u8>, val: int)
    requires
        s.len() >= 4,
        0 <= val <= u32::MAX,
    ensures
        le32(with_le32(s, val)) == val,
{
}

} // verus!
