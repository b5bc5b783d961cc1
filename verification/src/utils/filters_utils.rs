//! Fast estimation of the alpha filter that suits an image plane.

use vstd::prelude::*;
use crate::webp::types::{WEBP_FILTER_TYPE, filter_type_of};

verus! {

/// Number of bins of scored differences.
pub const SMAX: i32 = 16;

/// Number of filters that are scored.
pub const NUM_FILTERS: usize = 4;

/// The scoring difference of two samples, in [0, SMAX).
pub open spec fn sdiff_spec(a: int, b: int) -> int {
    (if a >= b { a - b } else { b - a }) / 16
}

/// The gradient prediction `a + b - c`, clamped to [0, 255].
pub open spec fn gradient_spec(a: int, b: int, c: int) -> int {
    let g = a + b - c;
    if g < 0 {
        0
    } else if g > 255 {
        255
    } else {
        g
    }
}

/// Computes the scoring difference of two samples, in [0, SMAX).
pub fn sdiff(a: u8, b: u8) -> (r: i32)
    ensures
        r == sdiff_spec(a as int, b as int),
        0 <= r < 16,
{
    let d: i32 = a as i32 - b as i32;
    let ad: i32 = if d < 0 { -d } else { d };
    assert(0 <= ad ==> ad >> 4u32 == ad / 16) by (bit_vector);
    ad >> 4u32
}

/// Gradient predictor: `a + b - c`, clamped to [0, 255].
pub fn gradient_predictor(a: u8, b: u8, c: u8) -> (r: u8)
    ensures
        r == gradient_spec(a as int, b as int, c as int),
{
    let g: i32 = a as i32 + b as i32 - c as i32;
    if g >= 0 && g <= 255 {
        g as u8
    } else if g < 0 {
        0
    } else {
        255
    }
}

/// Whether (row `j`, column `i`) is sampled: every second row and column,
/// from 2 and away from the last row and column.
pub open spec fn is_sample(j: int, i: int, width: int, height: int) -> bool {
    &&& 2 <= j < height - 1
    &&& j % 2 == 0
    &&& 2 <= i < width - 1
    &&& i % 2 == 0
}

/// The running mean of row `j` at column `i`: the row's first byte, then
/// `(3 * mean + p + 2) / 4` with each sample `p` of the row before `i`.
pub open spec fn row_mean(data: Seq<u8>, stride: int, j: int, i: int) -> int
    decreases i,
{
    if i <= 2 {
        data[j * stride] as int
    } else {
        (3 * row_mean(data, stride, j, i - 2) + data[j * stride + i - 2] + 2) / 4
    }
}

/// The difference scored for filter `f` at sample (row `j`, column `i`):
/// against the row's running mean (none), the left neighbour (horizontal),
/// the top neighbour (vertical) or the gradient prediction (gradient).
pub open spec fn sample_diff(data: Seq<u8>, stride: int, j: int, i: int, f: int) -> int {
    let pos = j * stride + i;
    let p = data[pos] as int;
    if f == 0 {
        sdiff_spec(p, row_mean(data, stride, j, i))
    } else if f == 1 {
        sdiff_spec(p, data[pos - 1] as int)
    } else if f == 2 {
        sdiff_spec(p, data[pos - stride] as int)
    } else {
        sdiff_spec(
            p,
            gradient_spec(data[pos - 1] as int, data[pos - stride] as int, data[pos - stride - 1] as int),
        )
    }
}

/// Whether some sample before (row `j`, column `i`) in scan order scores
/// difference `d` for filter `f`.
pub open spec fn marked_before(
    data: Seq<u8>,
    width: int,
    height: int,
    stride: int,
    f: int,
    d: int,
    j: int,
    i: int,
) -> bool {
    exists|j2: int, i2: int|
        is_sample(j2, i2, width, height) && (j2 < j || (j2 == j && i2 < i)) && #[trigger] sample_diff(
            data,
            stride,
            j2,
            i2,
            f,
        ) == d
}

/// Whether some sample scores difference `d` for filter `f`.
pub open spec fn bin_marked(data: Seq<u8>, width: int, height: int, stride: int, f: int, d: int) -> bool {
    exists|j: int, i: int|
        is_sample(j, i, width, height) && #[trigger] sample_diff(data, stride, j, i, f) == d
}

/// Sum of the differences below `n` that some sample scores for filter `f`.
pub open spec fn score_upto(data: Seq<u8>, width: int, height: int, stride: int, f: int, n: int) -> int
    decreases n,
{
    if n <= 0 {
        0
    } else {
        score_upto(data, width, height, stride, f, n - 1) + if bin_marked(data, width, height, stride, f, n - 1) {
            n - 1
        } else {
            0
        }
    }
}

/// The score of filter `f`: the sum of the distinct differences it sees.
pub open spec fn filter_score(data: Seq<u8>, width: int, height: int, stride: int, f: int) -> int {
    score_upto(data, width, height, stride, f, 16)
}

/// Among the first `n` filters, the first one with the lowest score below
/// `i32::MAX`, and that score (filter 0 and `i32::MAX` when none is lower).
pub open spec fn best_upto(data: Seq<u8>, width: int, height: int, stride: int, n: int) -> (int, int)
    decreases n,
{
    if n <= 0 {
        (0, i32::MAX as int)
    } else {
        let (b, sc) = best_upto(data, width, height, stride, n - 1);
        let s = filter_score(data, width, height, stride, n - 1);
        if s < sc {
            (n - 1, s)
        } else {
            (b, sc)
        }
    }
}

/// The last sampled row or column below `n - 1` (for `n >= 4`).
pub open spec fn last_sample(n: int) -> int {
    2 * ((n - 2) / 2)
}

/// Whether every sample (and every sampled row's first byte) lies in a
/// buffer of `len` bytes, with positions computed in `i32`.
pub open spec fn samples_fit(len: int, width: int, height: int, stride: int) -> bool {
    height >= 4 ==> {
        let last = last_sample(height) * stride + if width >= 4 { last_sample(width) } else { 0 };
        &&& width > i32::MIN
        &&& stride >= 0
        &&& last < len
        &&& last <= i32::MAX
    }
}


/// An even index from 2 below `n - 1` is at most the last sampled one.
proof fn lemma_le_last_sample(k: int, n: int)
    requires
        k % 2 == 0,
        2 <= k < n - 1,
    ensures
        2 <= k <= last_sample(n),
        n >= 4,
{
    assert(k / 2 <= (n - 2) / 2);
}

/// Scanning past sample (row `j`, column `i`) marks its difference.
proof fn lemma_marked_step(
    data: Seq<u8>,
    width: int,
    height: int,
    stride: int,
    f: int,
    d: int,
    j: int,
    i: int,
)
    requires
        is_sample(j, i, width, height),
    ensures
        marked_before(data, width, height, stride, f, d, j, i + 2) == (marked_before(
            data,
            width,
            height,
            stride,
            f,
            d,
            j,
            i,
        ) || sample_diff(data, stride, j, i, f) == d),
{
    if marked_before(data, width, height, stride, f, d, j, i + 2) {
        let (j2, i2) = choose|j2: int, i2: int|
            is_sample(j2, i2, width, height) && (j2 < j || (j2 == j && i2 < i + 2)) && #[trigger] sample_diff(
                data,
                stride,
                j2,
                i2,
                f,
            ) == d;
        if !(j2 == j && i2 == i) {
            assert(j2 < j || (j2 == j && i2 < i));
        }
    }
    if sample_diff(data, stride, j, i, f) == d {
        assert(is_sample(j, i, width, height) && sample_diff(data, stride, j, i, f) == d);
    }
}

/// Past the last column of row `j`, the next row starts.
proof fn lemma_marked_row_end(
    data: Seq<u8>,
    width: int,
    height: int,
    stride: int,
    f: int,
    d: int,
    j: int,
    i: int,
)
    requires
        i >= width - 1,
        j % 2 == 0,
    ensures
        marked_before(data, width, height, stride, f, d, j, i) == marked_before(
            data,
            width,
            height,
            stride,
            f,
            d,
            j + 2,
            0,
        ),
{
    if marked_before(data, width, height, stride, f, d, j + 2, 0) {
        let (j2, i2) = choose|j2: int, i2: int|
            is_sample(j2, i2, width, height) && (j2 < j + 2 || (j2 == j + 2 && i2 < 0)) && #[trigger] sample_diff(
                data,
                stride,
                j2,
                i2,
                f,
            ) == d;
        assert(j2 < j || (j2 == j && i2 < i));
    }
}

/// Past the last row, every sample has been scanned.
proof fn lemma_marked_all(
    data: Seq<u8>,
    width: int,
    height: int,
    stride: int,
    f: int,
    d: int,
    j: int,
)
    requires
        j >= height - 1,
    ensures
        marked_before(data, width, height, stride, f, d, j, 0) == bin_marked(
            data,
            width,
            height,
            stride,
            f,
            d,
        ),
{
    if bin_marked(data, width, height, stride, f, d) {
        let (j2, i2) = choose|j2: int, i2: int|
            is_sample(j2, i2, width, height) && #[trigger] sample_diff(data, stride, j2, i2, f) == d;
        assert(is_sample(j2, i2, width, height) && (j2 < j || (j2 == j && i2 < 0)) && sample_diff(
            data,
            stride,
            j2,
            i2,
            f,
        ) == d);
    }
}

/// Quick estimate of a potentially interesting filter mode to try: the
/// first filter whose score (the sum of the distinct differences it scores
/// over the sampled pixels) is the lowest.
pub fn estimate_best_filter(data: &[u8], width: i32, height: i32, stride: i32) -> (r: WEBP_FILTER_TYPE)
    requires
        height > i32::MIN,
        samples_fit(data@.len() as int, width as int, height as int, stride as int),
    ensures
        r == filter_type_of(best_upto(data@, width as int, height as int, stride as int, 4).0),
{
    let ghost w = width as int;
    let ghost h = height as int;
    let ghost st = stride as int;
    let mut bins: [i32; 64] = [0i32; 64];
    let mut j: i32 = 2;
    while j < height - 1
        invariant
            2 <= j,
            j % 2 == 0,
            height > i32::MIN,
            w == width && h == height && st == stride,
            samples_fit(data@.len() as int, w, h, st),
            forall|f: int, d: int|
                0 <= f < 4 && 0 <= d < 16 ==> #[trigger] bins@[f * 16 + d] == if marked_before(
                    data@,
                    w,
                    h,
                    st,
                    f,
                    d,
                    j as int,
                    0,
                ) {
                    1i32
                } else {
                    0i32
                },
        decreases height - j,
    {
        proof {
            lemma_le_last_sample(j as int, h);
            vstd::arithmetic::mul::lemma_mul_inequality(j as int, last_sample(h), st);
            vstd::arithmetic::mul::lemma_mul_nonnegative(j as int, st);
        }
        let row: i32 = j * stride;
        let mut mean: u8 = data[row as usize];
        let mut i: i32 = 2;
        proof {
            assert forall|f: int, d: int| 0 <= f < 4 && 0 <= d < 16 implies marked_before(
                data@,
                w,
                h,
                st,
                f,
                d,
                j as int,
                0,
            ) == marked_before(data@, w, h, st, f, d, j as int, 2) by {
                if marked_before(data@, w, h, st, f, d, j as int, 2) {
                    let (j2, i2) = choose|j2: int, i2: int|
                        is_sample(j2, i2, w, h) && (j2 < j || (j2 == j && i2 < 2)) && #[trigger] sample_diff(
                            data@,
                            st,
                            j2,
                            i2,
                            f,
                        ) == d;
                    assert(j2 < j);
                }
            }
        }
        while i < width - 1
            invariant
                2 <= i,
                i % 2 == 0,
                w == width && h == height && st == stride,
                2 <= j < height - 1,
                j % 2 == 0,
                j <= last_sample(h),
                row == j * stride,
                samples_fit(data@.len() as int, w, h, st),
                mean == row_mean(data@, st, j as int, i as int),
                forall|f: int, d: int|
                    0 <= f < 4 && 0 <= d < 16 ==> #[trigger] bins@[f * 16 + d] == if marked_before(
                        data@,
                        w,
                        h,
                        st,
                        f,
                        d,
                        j as int,
                        i as int,
                    ) {
                        1i32
                    } else {
                        0i32
                    },
            decreases width - i,
        {
            proof {
                lemma_le_last_sample(i as int, w);
                vstd::arithmetic::mul::lemma_mul_inequality(2, j as int, st);
                vstd::arithmetic::mul::lemma_mul_inequality(j as int, last_sample(h), st);
            }
            let pos: usize = (row + i) as usize;
            let p_i: u8 = data[pos];
            let p_i_prev: u8 = data[pos - 1];
            let p_i_top: u8 = data[pos - stride as usize];
            let p_i_top_left: u8 = data[pos - stride as usize - 1];
            let diff0: i32 = sdiff(p_i, mean);
            let diff1: i32 = sdiff(p_i, p_i_prev);
            let diff2: i32 = sdiff(p_i, p_i_top);
            let grad_pred: u8 = gradient_predictor(p_i_prev, p_i_top, p_i_top_left);
            let diff3: i32 = sdiff(p_i, grad_pred);
            let ghost old_bins = bins@;
            bins[diff0 as usize] = 1;
            bins[16 + diff1 as usize] = 1;
            bins[32 + diff2 as usize] = 1;
            bins[48 + diff3 as usize] = 1;
            proof {
                assert forall|f: int, d: int| 0 <= f < 4 && 0 <= d < 16 implies #[trigger] bins@[f * 16
                    + d] == if marked_before(data@, w, h, st, f, d, j as int, i + 2) {
                    1i32
                } else {
                    0i32
                } by {
                    lemma_marked_step(data@, w, h, st, f, d, j as int, i as int);
                    assert(old_bins[f * 16 + d] == if marked_before(data@, w, h, st, f, d, j as int, i as int) {
                        1i32
                    } else {
                        0i32
                    });
                }
            }
            let acc: i32 = 3 * mean as i32 + p_i as i32 + 2;
            assert(0 <= acc ==> acc >> 2u32 == acc / 4) by (bit_vector);
            mean = (acc >> 2u32) as u8;
            i = i + 2;
        }
        proof {
            assert forall|f: int, d: int| 0 <= f < 4 && 0 <= d < 16 implies marked_before(
                data@,
                w,
                h,
                st,
                f,
                d,
                j as int,
                i as int,
            ) == marked_before(data@, w, h, st, f, d, j + 2, 0) by {
                lemma_marked_row_end(data@, w, h, st, f, d, j as int, i as int);
            }
        }
        j = j + 2;
    }
    proof {
        assert forall|f: int, d: int| 0 <= f < 4 && 0 <= d < 16 implies marked_before(
            data@,
            w,
            h,
            st,
            f,
            d,
            j as int,
            0,
        ) == bin_marked(data@, w, h, st, f, d) by {
            lemma_marked_all(data@, w, h, st, f, d, j as int);
        }
    }
    let mut best_score: i32 = i32::MAX;
    let mut best_filter: WEBP_FILTER_TYPE = WEBP_FILTER_TYPE::WEBP_FILTER_NONE;
    let ghost mut best_index: int = 0;
    let mut filter: usize = 0;
    while filter < NUM_FILTERS
        invariant
            filter <= 4,
            w == width && h == height && st == stride,
            (best_index, best_score as int) == best_upto(data@, w, h, st, filter as int),
            best_filter == filter_type_of(best_index),
            forall|f: int, d: int|
                0 <= f < 4 && 0 <= d < 16 ==> #[trigger] bins@[f * 16 + d] == if bin_marked(
                    data@,
                    w,
                    h,
                    st,
                    f,
                    d,
                ) {
                    1i32
                } else {
                    0i32
                },
        decreases 4 - filter,
    {
        let mut score: i32 = 0;
        let mut k: usize = 0;
        while k < SMAX as usize
            invariant
                filter < 4,
                k <= 16,
                w == width && h == height && st == stride,
                0 <= score <= 16 * k,
                score == score_upto(data@, w, h, st, filter as int, k as int),
                forall|f: int, d: int|
                    0 <= f < 4 && 0 <= d < 16 ==> #[trigger] bins@[f * 16 + d] == if bin_marked(
                        data@,
                        w,
                        h,
                        st,
                        f,
                        d,
                    ) {
                        1i32
                    } else {
                        0i32
                    },
            decreases 16 - k,
        {
            assert(bins@[filter * 16 + k] == if bin_marked(data@, w, h, st, filter as int, k as int) {
                1i32
            } else {
                0i32
            });
            if bins[filter * 16 + k] > 0 {
                score = score + k as i32;
            }
            k = k + 1;
        }
        if score < best_score {
            best_score = score;
            best_filter = WEBP_FILTER_TYPE::from_index(filter as u32);
            proof {
                best_index = filter as int;
            }
        }
        filter = filter + 1;
    }
    best_filter
}

/// The running mean of a row starts at the row's first byte and takes in
/// each sample of the row in turn: the mean at column `i + 2` is
/// `(3 * mean + p + 2) / 4` of the mean at column `i` and the byte `p` at
/// column `i`.
pub proof fn lemma_row_mean_recurrence(data: Seq<u8>, stride: int, j: int, i: int)
    requires
        i >= 2,
    ensures
        row_mean(data, stride, j, 2) == data[j * stride] as int,
        row_mean(data, stride, j, i + 2) == (3 * row_mean(data, stride, j, i) + data[j * stride + i] + 2)
            / 4,
{
    assert(j * stride + (i + 2) - 2 == j * stride + i);
}

/// The scoring difference is symmetric.
pub proof fn lemma_sdiff_symmetric(a: int, b: int)
    ensures
        sdiff_spec(a, b) == sdiff_spec(b, a),
{
}

/// A score is a sum of distinct differences below `n`: between 0 and
/// `n * (n - 1) / 2`.
proof fn lemma_score_bounds(data: Seq<u8>, width: int, height: int, stride: int, f: int, n: int)
    requires
        0 <= n,
    ensures
        0 <= score_upto(data, width, height, stride, f, n) <= n * n,
    decreases n,
{
    if n > 0 {
        lemma_score_bounds(data, width, height, stride, f, n - 1);
        assert((n - 1) * (n - 1) + n - 1 <= n * n) by (nonlinear_arith)
            requires
                n >= 1,
        ;
    }
}

/// The estimated filter is one of the four scored filters, no filter scores
/// lower, and every filter before it scores higher.
pub proof fn lemma_best_filter_minimal(data: Seq<u8>, width: int, height: int, stride: int, n: int)
    requires
        0 <= n <= 4,
    ensures
        ({
            let (b, sc) = best_upto(data, width, height, stride, n);
            &&& n > 0 ==> 0 <= b < n && sc == filter_score(data, width, height, stride, b)
            &&& forall|f: int| 0 <= f < n ==> sc <= #[trigger] filter_score(data, width, height, stride, f)
            &&& forall|f: int| 0 <= f < b ==> sc < #[trigger] filter_score(data, width, height, stride, f)
        }),
    decreases n,
{
    if n > 0 {
        lemma_best_filter_minimal(data, width, height, stride, n - 1);
        lemma_score_bounds(data, width, height, stride, n - 1, 16);
        assert forall|f: int| 0 <= f < n - 1 implies 0 <= #[trigger] filter_score(data, width, height, stride, f) <= 256 by {
            lemma_score_bounds(data, width, height, stride, f, 16);
        }
    }
}

/// The pixel at row `y`, column `x` of a plane laid out with `stride`.
pub open spec fn pixel(data: Seq<u8>, stride: int, y: int, x: int) -> u8 {
    data[y * stride + x]
}

/// Two planes that agree on rows 1 to `height - 2` and columns 0 to
/// `width - 2`.
pub open spec fn agree_inside(data1: Seq<u8>, data2: Seq<u8>, width: int, height: int, stride: int) -> bool {
    forall|y: int, x: int|
        1 <= y <= height - 2 && 0 <= x <= width - 2 ==> #[trigger] pixel(data1, stride, y, x) == pixel(
            data2,
            stride,
            y,
            x,
        )
}

/// The running mean of a row only reads the row's columns 0 to `i - 2`.
proof fn lemma_row_mean_inside(data1: Seq<u8>, data2: Seq<u8>, width: int, height: int, stride: int, j: int, i: int)
    requires
        agree_inside(data1, data2, width, height, stride),
        1 <= j <= height - 2,
        i <= width - 2,
        2 <= width,
    ensures
        row_mean(data1, stride, j, i) == row_mean(data2, stride, j, i),
    decreases i,
{
    assert(pixel(data1, stride, j, 0) == pixel(data2, stride, j, 0));
    if i > 2 {
        lemma_row_mean_inside(data1, data2, width, height, stride, j, i - 2);
        assert(pixel(data1, stride, j, i - 2) == pixel(data2, stride, j, i - 2));
    }
}

/// A sample's difference only reads the sample, its left, top and top-left
/// neighbours and its row's running mean.
proof fn lemma_sample_diff_inside(data1: Seq<u8>, data2: Seq<u8>, width: int, height: int, stride: int, j: int, i: int, f: int)
    requires
        agree_inside(data1, data2, width, height, stride),
        is_sample(j, i, width, height),
    ensures
        sample_diff(data1, stride, j, i, f) == sample_diff(data2, stride, j, i, f),
{
    lemma_row_mean_inside(data1, data2, width, height, stride, j, i);
    assert((j - 1) * stride == j * stride - stride) by (nonlinear_arith);
    assert(pixel(data1, stride, j, i) == pixel(data2, stride, j, i));
    assert(pixel(data1, stride, j, i - 1) == pixel(data2, stride, j, i - 1));
    assert(pixel(data1, stride, j - 1, i) == pixel(data2, stride, j - 1, i));
    assert(pixel(data1, stride, j - 1, i - 1) == pixel(data2, stride, j - 1, i - 1));
}

/// The marked bins only depend on the pixels inside.
proof fn lemma_bin_marked_inside(data1: Seq<u8>, data2: Seq<u8>, width: int, height: int, stride: int, f: int, d: int)
    requires
        agree_inside(data1, data2, width, height, stride),
    ensures
        bin_marked(data1, width, height, stride, f, d) == bin_marked(data2, width, height, stride, f, d),
{
    if bin_marked(data1, width, height, stride, f, d) {
        let (j, i) = choose|j: int, i: int|
            is_sample(j, i, width, height) && #[trigger] sample_diff(data1, stride, j, i, f) == d;
        lemma_sample_diff_inside(data1, data2, width, height, stride, j, i, f);
        assert(is_sample(j, i, width, height) && sample_diff(data2, stride, j, i, f) == d);
    }
    if bin_marked(data2, width, height, stride, f, d) {
        let (j, i) = choose|j: int, i: int|
            is_sample(j, i, width, height) && #[trigger] sample_diff(data2, stride, j, i, f) == d;
        lemma_sample_diff_inside(data1, data2, width, height, stride, j, i, f);
        assert(is_sample(j, i, width, height) && sample_diff(data1, stride, j, i, f) == d);
    }
}

/// The partial scores only depend on the pixels inside.
proof fn lemma_score_inside(data1: Seq<u8>, data2: Seq<u8>, width: int, height: int, stride: int, f: int, n: int)
    requires
        agree_inside(data1, data2, width, height, stride),
    ensures
        score_upto(data1, width, height, stride, f, n) == score_upto(data2, width, height, stride, f, n),
    decreases n,
{
    if n > 0 {
        lemma_score_inside(data1, data2, width, height, stride, f, n - 1);
        lemma_bin_marked_inside(data1, data2, width, height, stride, f, n - 1);
    }
}

/// The estimate reads only rows 1 to `height - 2` and columns 0 to
/// `width - 2` of the plane: the first and the last row, the last column
/// and the bytes past `width` in each row do not change it.
pub proof fn lemma_best_filter_reads_inside(data1: Seq<u8>, data2: Seq<u8>, width: int, height: int, stride: int, n: int)
    requires
        agree_inside(data1, data2, width, height, stride),
    ensures
        best_upto(data1, width, height, stride, n) == best_upto(data2, width, height, stride, n),
    decreases n,
{
    if n > 0 {
        lemma_best_filter_reads_inside(data1, data2, width, height, stride, n - 1);
        lemma_score_inside(data1, data2, width, height, stride, n - 1, 16);
    }
}

} // verus!
