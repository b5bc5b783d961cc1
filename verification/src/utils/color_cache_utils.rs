//! Color cache for WebP lossless.

use vstd::prelude::*;
use vstd::arithmetic::power2::*;
use crate::utils::utils::{WebPSafeCalloc, alloc_len, max_allocable_memory};

verus! {

/// Multiplier of the color hash.
pub const HASH_MUL: u32 = 0x1e35a7bd;

/// The hash of a color: the product `argb * HASH_MUL` modulo 2^32, shifted
/// right by `shift`.
pub open spec fn color_hash(argb: u32, shift: int) -> int {
    ((argb as int * HASH_MUL as int) % 0x1_0000_0000) / (pow2(shift as nat) as int)
}

/// What `contains` answers for `argb` on the entries `colors`: the hash of
/// the color if the entry under it holds the color, and -1 otherwise.
pub open spec fn cache_contains(colors: Seq<u32>, shift: int, argb: u32) -> int {
    if colors[color_hash(argb, shift)] == argb {
        color_hash(argb, shift)
    } else {
        -1
    }
}

/// Main color cache struct: `1 << hash_bits_` colors indexed by their hash.
pub struct VP8LColorCache {
    /// color entries
    pub colors_: Vec<u32>,
    /// hash shift: 32 - hash_bits_
    pub hash_shift_: i32,
    pub hash_bits_: i32,
}

impl Default for VP8LColorCache {
    fn default() -> (c: Self)
        ensures
            c.colors_@ == Seq::<u32>::empty() && c.hash_shift_ == 0 && c.hash_bits_ == 0,
    {
        VP8LColorCache { colors_: Vec::new(), hash_shift_: 0, hash_bits_: 0 }
    }
}

impl VP8LColorCache {
    /// The cache is usable: `1 <= hash_bits_ <= 31`, the shift is
    /// `32 - hash_bits_` and there are `2^hash_bits_` entries.
    pub open spec fn wf(&self) -> bool {
        &&& 1 <= self.hash_bits_ <= 31
        &&& self.hash_shift_ == 32 - self.hash_bits_
        &&& self.colors_@.len() == pow2(self.hash_bits_ as nat)
    }

    /// Initializes the cache with `hash_bits` bits for the keys: a zeroed
    /// allocation of `2^hash_bits` 4-byte entries.  Returns `false` (cache
    /// unchanged) when the size is refused: beyond the allocation limit or
    /// `usize`, or when `1 << 31` wraps to a negative entry count.
    pub fn init(&mut self, hash_bits: i32) -> (ok: bool)
        requires
            0 < hash_bits < 32,
        ensures
            ok == (hash_bits <= 30 && pow2((hash_bits + 2) as nat) <= max_allocable_memory()
                && pow2((hash_bits + 2) as nat) <= usize::MAX),
            ok ==> final(self).hash_bits_ == hash_bits && final(self).hash_shift_ == 32 - hash_bits
                && final(self).colors_@ == Seq::new(
                (alloc_len(pow2((hash_bits + 2) as nat) as int) / 4) as nat,
                |i: int| 0u32,
            ),
            ok && pow2((hash_bits + 2) as nat) <= isize::MAX ==> final(self).wf(),
            !ok ==> *final(self) == *old(self),
    {
        let hash_size: i32 = 1i32 << (hash_bits as u32);
        proof {
            lemma2_to64();
            lemma2_to64_rest();
            if hash_bits <= 30 {
                vstd::bits::lemma_u32_shl_is_mul(1u32, hash_bits as u32);
                assert((1i32 << (hash_bits as u32)) as u32 == 1u32 << (hash_bits as u32)) by (bit_vector)
                    requires
                        hash_bits <= 30,
                ;
                lemma_pow2_adds(hash_bits as nat, 2);
            }
        }
        let nmemb: u64 = hash_size as u64;
        proof {
            let hb = hash_bits as u32;
            if hash_bits <= 30 {
                assert(nmemb == (1u32 << hb) as u64) by (bit_vector)
                    requires
                        hash_size == 1i32 << hb,
                        nmemb == hash_size as u64,
                        hb <= 30,
                ;
                assert(nmemb == pow2(hash_bits as nat));
                lemma_pow2_strictly_increases(hash_bits as nat, 31);
                assert(nmemb * 4 == pow2((hash_bits + 2) as nat));
                let m = max_allocable_memory();
                assert((4 <= m / (nmemb as int)) == (4 * nmemb <= m)) by (nonlinear_arith)
                    requires
                        nmemb > 0,
                        m >= 0,
                {
                    vstd::arithmetic::div_mod::lemma_fundamental_div_mod(m, nmemb as int);
                    vstd::arithmetic::div_mod::lemma_mod_bound(m, nmemb as int);
                }
            } else {
                assert(nmemb == 0xffff_ffff_8000_0000u64) by (bit_vector)
                    requires
                        hash_size == 1i32 << hb,
                        nmemb == hash_size as u64,
                        hb == 31,
                ;
                assert(max_allocable_memory() / (nmemb as int) == 0);
            }
        }
        let bytes: Vec<u8> = match WebPSafeCalloc(nmemb, 4) {
            Some(b) => b,
            None => {
                return false;
            },
        };
        let n: usize = bytes.len() / 4;
        let mut colors: Vec<u32> = Vec::new();
        let mut i: usize = 0;
        while i < n
            invariant
                i <= n,
                colors@ == Seq::new(i as nat, |k: int| 0u32),
            decreases n - i,
        {
            colors.push(0u32);
            i = i + 1;
            assert(colors@ =~= Seq::new(i as nat, |k: int| 0u32));
        }
        self.colors_ = colors;
        self.hash_shift_ = 32 - hash_bits;
        self.hash_bits_ = hash_bits;
        true
    }

    /// Releases the entries.
    pub fn clear(&mut self)
        ensures
            final(self).colors_@ == Seq::<u32>::empty(),
            final(self).hash_shift_ == old(self).hash_shift_,
            final(self).hash_bits_ == old(self).hash_bits_,
    {
        if self.colors_.len() > 0 {
            self.colors_ = Vec::new();
        }
    }

    /// Copies the entries of `src` (which has the same number of hash bits).
    pub fn copy_from(&mut self, src: &VP8LColorCache)
        requires
            old(self).wf(),
            src.wf(),
            src.hash_bits_ == old(self).hash_bits_,
        ensures
            final(self).wf(),
            final(self).colors_@ == src.colors_@,
            final(self).hash_bits_ == old(self).hash_bits_,
            final(self).hash_shift_ == old(self).hash_shift_,
    {
        let n: usize = 1usize << (self.hash_bits_ as usize);
        proof {
            vstd::bits::lemma_usize_pow2_no_overflow(self.hash_bits_ as nat);
            vstd::bits::lemma_usize_shl_is_mul(1usize, self.hash_bits_ as usize);
        }
        let mut i: usize = 0;
        while i < n
            invariant
                i <= n == self.colors_@.len() == src.colors_@.len() == old(self).colors_@.len(),
                self.hash_bits_ == src.hash_bits_,
                self.hash_shift_ == old(self).hash_shift_,
                self.hash_bits_ == old(self).hash_bits_,
                self.colors_@ == src.colors_@.take(i as int) + old(self).colors_@.skip(i as int),
            decreases n - i,
        {
            self.colors_.set(i, src.colors_[i]);
            i = i + 1;
            assert(self.colors_@ =~= src.colors_@.take(i as int) + old(self).colors_@.skip(i as int));
        }
        assert(self.colors_@ =~= src.colors_@);
    }

    /// Hashes a pixel: `argb * HASH_MUL` modulo 2^32, shifted right by
    /// `shift`, as an `i32`.
    pub fn hash_pix(argb: u32, shift: i32) -> (r: i32)
        requires
            0 <= shift < 32,
        ensures
            r == (color_hash(argb, shift as int) as u32) as i32,
            shift > 0 ==> r == color_hash(argb, shift as int),
    {
        let h: u32 = argb.wrapping_mul(HASH_MUL) >> (shift as u32);
        proof {
            vstd::bits::lemma_u32_shr_is_div(argb.wrapping_mul(HASH_MUL), shift as u32);
            if shift > 0 {
                let x = argb.wrapping_mul(HASH_MUL);
                let sh = shift as u32;
                assert(sh > 0 ==> x >> sh <= 0x7fff_ffff) by (bit_vector);
            }
        }
        h as i32
    }

    /// Looks up the color stored under `key`.
    pub fn lookup(&self, key: u32) -> (c: u32)
        requires
            self.wf(),
            key < pow2(self.hash_bits_ as nat),
        ensures
            c == self.colors_@[key as int],
    {
        proof {
            self.lemma_key_check(key);
        }
        self.colors_[key as usize]
    }

    /// Stores `argb` under `key`.
    pub fn set(&mut self, key: u32, argb: u32)
        requires
            old(self).wf(),
            key < pow2(old(self).hash_bits_ as nat),
        ensures
            final(self).wf(),
            final(self).colors_@ == old(self).colors_@.update(key as int, argb),
            final(self).hash_bits_ == old(self).hash_bits_,
    {
        proof {
            self.lemma_key_check(key);
        }
        self.colors_.set(key as usize, argb);
    }

    /// Inserts a color under its hash.
    pub fn insert(&mut self, argb: u32)
        requires
            old(self).wf(),
        ensures
            final(self).wf(),
            final(self).colors_@ == old(self).colors_@.update(
                color_hash(argb, old(self).hash_shift_ as int),
                argb,
            ),
            final(self).hash_bits_ == old(self).hash_bits_,
    {
        let key: i32 = Self::hash_pix(argb, self.hash_shift_);
        proof {
            self.lemma_hash_in_range(argb);
        }
        self.colors_.set(key as usize, argb);
    }

    /// The index of a color in the cache: its hash (as an `i32`).  In a
    /// well-formed cache it is an index of the entries.
    pub fn get_index(&self, argb: u32) -> (r: i32)
        requires
            0 <= self.hash_shift_ < 32,
        ensures
            r == (color_hash(argb, self.hash_shift_ as int) as u32) as i32,
            self.hash_shift_ > 0 ==> r == color_hash(argb, self.hash_shift_ as int),
            self.wf() ==> 0 <= r < pow2(self.hash_bits_ as nat),
    {
        proof {
            if self.wf() {
                self.lemma_hash_in_range(argb);
            }
        }
        Self::hash_pix(argb, self.hash_shift_)
    }

    /// Returns the key if the cache holds `argb` under its hash, and -1
    /// otherwise.
    pub fn contains(&self, argb: u32) -> (r: i32)
        requires
            self.wf(),
        ensures
            r == cache_contains(self.colors_@, self.hash_shift_ as int, argb),
            self.colors_@[color_hash(argb, self.hash_shift_ as int)] == argb ==> r == color_hash(
                argb,
                self.hash_shift_ as int,
            ),
            self.colors_@[color_hash(argb, self.hash_shift_ as int)] != argb ==> r == -1,
    {
        let key: i32 = Self::hash_pix(argb, self.hash_shift_);
        proof {
            self.lemma_hash_in_range(argb);
        }
        if self.colors_[key as usize] == argb {
            key
        } else {
            -1
        }
    }

    /// A key passes the check `key >> hash_bits == 0` and indexes an entry.
    proof fn lemma_key_check(&self, key: u32)
        requires
            self.wf(),
            key < pow2(self.hash_bits_ as nat),
        ensures
            key >> (self.hash_bits_ as u32) == 0,
            (key as int) < self.colors_@.len(),
    {
        vstd::bits::lemma_u32_shr_is_div(key, self.hash_bits_ as u32);
        vstd::arithmetic::div_mod::lemma_basic_div(key as int, pow2(self.hash_bits_ as nat) as int);
    }

    /// The hash of a color indexes an entry of the cache.
    pub proof fn lemma_hash_in_range(&self, argb: u32)
        requires
            self.wf(),
        ensures
            0 <= color_hash(argb, self.hash_shift_ as int) < pow2(self.hash_bits_ as nat),
    {
        let x = (argb as int * HASH_MUL as int) % 0x1_0000_0000;
        let sh = self.hash_shift_ as nat;
        let b = self.hash_bits_ as nat;
        lemma_pow2_adds(sh, b);
        lemma2_to64();
        lemma_pow2_pos(sh);
        assert(sh + b == 32);
        vstd::arithmetic::div_mod::lemma_div_pos_is_pos(x, pow2(sh) as int);
        assert(x < pow2(sh) * pow2(b));
        vstd::arithmetic::mul::lemma_mul_is_commutative(pow2(sh) as int, pow2(b) as int);
        vstd::arithmetic::div_mod::lemma_div_by_multiple(pow2(b) as int, pow2(sh) as int);
        vstd::arithmetic::div_mod::lemma_div_by_multiple_is_strongly_ordered(x, (pow2(b) * pow2(sh)) as int, pow2(b) as int, pow2(sh) as int);
    }
}

/// A color that was just inserted is found, under its hash.
pub proof fn lemma_insert_then_contains(c: VP8LColorCache, argb: u32)
    requires
        c.wf(),
    ensures
        cache_contains(
            c.colors_@.update(color_hash(argb, c.hash_shift_ as int), argb),
            c.hash_shift_ as int,
            argb,
        ) == color_hash(argb, c.hash_shift_ as int),
{
    c.lemma_hash_in_range(argb);
}

/// The cache answers for a color only from the entry under its hash: a
/// color is reported (under its hash) exactly when that entry holds it, and
/// -1 otherwise, however the entry is filled.
pub proof fn lemma_contains_only_stored_color(c: VP8LColorCache, argb: u32)
    requires
        c.wf(),
    ensures
        ({
            let h = color_hash(argb, c.hash_shift_ as int);
            let r = cache_contains(c.colors_@, c.hash_shift_ as int, argb);
            &&& 0 <= h < c.colors_@.len()
            &&& c.colors_@[h] != argb ==> r == -1
            &&& c.colors_@[h] == argb ==> r == h
            &&& r != -1 ==> c.colors_@[r] == argb
        }),
{
    c.lemma_hash_in_range(argb);
}

/// Looking up a key gives the color that was last stored under it.
pub proof fn lemma_set_then_lookup(colors: Seq<u32>, key: int, argb: u32)
    requires
        0 <= key < colors.len(),
    ensures
        colors.update(key, argb)[key] == argb,
{
}

} // verus!
