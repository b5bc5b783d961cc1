//! Common type definitions used across the WebP implementation.

use vstd::prelude::*;

verus! {

#[allow(non_camel_case_types)]
pub type int8_t = i8;

#[allow(non_camel_case_types)]
pub type uint8_t = u8;

#[allow(non_camel_case_types)]
pub type int16_t = i16;

#[allow(non_camel_case_types)]
pub type uint16_t = u16;

#[allow(non_camel_case_types)]
pub type int32_t = i32;

#[allow(non_camel_case_types)]
pub type uint32_t = u32;

#[allow(non_camel_case_types)]
pub type int64_t = i64;

#[allow(non_camel_case_types)]
pub type uint64_t = u64;

/// Alpha filtering modes.
#[allow(non_camel_case_types)]
#[derive(Debug, Clone, Copy, PartialEq, Eq, Structural)]
pub enum WEBP_FILTER_TYPE {
    WEBP_FILTER_NONE,
    WEBP_FILTER_HORIZONTAL,
    WEBP_FILTER_VERTICAL,
    WEBP_FILTER_GRADIENT,
    /// Number of filters (end marker).
    WEBP_FILTER_LAST,
    /// Meta-type: try all filters and keep the best.
    WEBP_FILTER_BEST,
    /// Meta-type: estimate the best filter.
    WEBP_FILTER_FAST,
}

/// The filter type of index `i`, in declaration order.
pub open spec fn filter_type_of(i: int) -> WEBP_FILTER_TYPE {
    if i == 0 {
        WEBP_FILTER_TYPE::WEBP_FILTER_NONE
    } else if i == 1 {
        WEBP_FILTER_TYPE::WEBP_FILTER_HORIZONTAL
    } else if i == 2 {
        WEBP_FILTER_TYPE::WEBP_FILTER_VERTICAL
    } else if i == 3 {
        WEBP_FILTER_TYPE::WEBP_FILTER_GRADIENT
    } else if i == 4 {
        WEBP_FILTER_TYPE::WEBP_FILTER_LAST
    } else if i == 5 {
        WEBP_FILTER_TYPE::WEBP_FILTER_BEST
    } else {
        WEBP_FILTER_TYPE::WEBP_FILTER_FAST
    }
}

impl WEBP_FILTER_TYPE {
    /// The filter type whose discriminant is `i`.
    pub fn from_index(i: u32) -> (f: WEBP_FILTER_TYPE)
        requires
            i < 7,
        ensures
            f == filter_type_of(i as int),
    {
        if i == 0 {
            WEBP_FILTER_TYPE::WEBP_FILTER_NONE
        } else if i == 1 {
            WEBP_FILTER_TYPE::WEBP_FILTER_HORIZONTAL
        } else if i == 2 {
            WEBP_FILTER_TYPE::WEBP_FILTER_VERTICAL
        } else if i == 3 {
            WEBP_FILTER_TYPE::WEBP_FILTER_GRADIENT
        } else if i == 4 {
            WEBP_FILTER_TYPE::WEBP_FILTER_LAST
        } else if i == 5 {
            WEBP_FILTER_TYPE::WEBP_FILTER_BEST
        } else {
            WEBP_FILTER_TYPE::WEBP_FILTER_FAST
        }
    }
}

/// Allocates `size` bytes (zeroed here); a size beyond `isize::MAX` gets
/// a single byte, as no allocation layout describes it.
#[allow(non_snake_case)]
pub fn WebPMalloc(size: usize) -> (v: Vec<u8>)
    requires
        size > 0,
    ensures
        v@ == Seq::new(crate::utils::utils::alloc_len(size as int) as nat, |i: int| 0u8),
{
    let n: usize = if size > isize::MAX as usize {
        1
    } else {
        size
    };
    let mut v: Vec<u8> = Vec::new();
    let mut i: usize = 0;
    while i < n
        invariant
            i <= n,
            v@ == Seq::new(i as nat, |k: int| 0u8),
        decreases n - i,
    {
        v.push(0u8);
        i = i + 1;
        assert(v@ =~= Seq::new(i as nat, |k: int| 0u8));
    }
    v
}

} // verus!
