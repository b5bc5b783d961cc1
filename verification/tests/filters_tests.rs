use webp_rs::utils::filters_utils::{estimate_best_filter, gradient_predictor, sdiff};
use webp_rs::webp::types::WEBP_FILTER_TYPE;

#[test]
fn test_gradient_predictor() {
    assert_eq!(gradient_predictor(100, 100, 100), 100);
    assert_eq!(gradient_predictor(255, 255, 255), 255);
    assert_eq!(gradient_predictor(0, 0, 0), 0);
    assert_eq!(gradient_predictor(100, 150, 200), 50);
}

#[test]
fn test_sdiff() {
    assert_eq!(sdiff(16, 0), 1);
    assert_eq!(sdiff(0, 16), 1);
    assert_eq!(sdiff(255, 255), 0);
    assert_eq!(sdiff(0, 0), 0);
}

#[test]
fn sdiff_is_symmetric_and_bounded() {
    for a in [0u8, 15, 16, 17, 100, 200, 255] {
        for b in [0u8, 1, 31, 32, 128, 255] {
            assert_eq!(sdiff(a, b), sdiff(b, a));
            assert!(sdiff(a, b) >= 0 && sdiff(a, b) < 16);
        }
    }
    assert_eq!(sdiff(255, 0), 15);
    assert_eq!(sdiff(47, 16), 1);
    assert_eq!(sdiff(48, 16), 2);
}

#[test]
fn gradient_predictor_clamps() {
    assert_eq!(gradient_predictor(200, 200, 10), 255);
    assert_eq!(gradient_predictor(10, 20, 200), 0);
    assert_eq!(gradient_predictor(10, 20, 5), 25);
}

#[test]
fn estimate_best_filter_flat_plane_is_none() {
    let data = vec![7u8; 36];
    assert_eq!(estimate_best_filter(&data, 6, 6, 6), WEBP_FILTER_TYPE::WEBP_FILTER_NONE);
}

#[test]
fn estimate_best_filter_too_small_to_sample_is_none() {
    let data = vec![1u8, 200, 3, 4, 5, 6, 7, 8, 9];
    assert_eq!(estimate_best_filter(&data, 3, 3, 3), WEBP_FILTER_TYPE::WEBP_FILTER_NONE);
}

#[test]
fn estimate_best_filter_ramp_is_gradient() {
    let mut data = Vec::new();
    for y in 0..6u32 {
        for x in 0..6u32 {
            data.push(((x * 40 + y * 20) % 256) as u8);
        }
    }
    assert_eq!(estimate_best_filter(&data, 6, 6, 6), WEBP_FILTER_TYPE::WEBP_FILTER_GRADIENT);
}

#[test]
fn estimate_best_filter_picks_horizontal() {
    let data: Vec<u8> = vec![
        0, 32, 0, 32, 100, 200, 255, 100, 255, 100, 100, 255, 200, 100, 16, 32, 0, 0, 16, 100, 16,
        32, 255, 100, 255, 32, 100, 200, 100, 200, 32, 200, 200, 100, 200, 16,
    ];
    assert_eq!(estimate_best_filter(&data, 6, 6, 6), WEBP_FILTER_TYPE::WEBP_FILTER_HORIZONTAL);
}

#[test]
fn estimate_best_filter_picks_vertical() {
    let data: Vec<u8> = vec![
        16, 200, 200, 16, 32, 200, 100, 255, 200, 0, 200, 0, 100, 32, 200, 16, 16, 255, 100, 200,
        200, 100, 100, 255, 16, 16, 255, 16, 200, 100, 255, 0, 255, 0, 16, 200,
    ];
    assert_eq!(estimate_best_filter(&data, 6, 6, 6), WEBP_FILTER_TYPE::WEBP_FILTER_VERTICAL);
}

#[test]
fn estimate_best_filter_tie_keeps_first() {
    // none and horizontal both score 16: the first one wins
    let data: Vec<u8> = vec![
        0, 200, 200, 0, 100, 255, 200, 32, 200, 32, 200, 16, 0, 32, 0, 0, 0, 200, 200, 0, 16, 100,
        32, 200, 32, 16, 255, 0, 32, 32, 32, 16, 100, 100, 100, 200,
    ];
    assert_eq!(estimate_best_filter(&data, 6, 6, 6), WEBP_FILTER_TYPE::WEBP_FILTER_NONE);
}

#[test]
fn filter_type_from_index() {
    assert_eq!(WEBP_FILTER_TYPE::from_index(0), WEBP_FILTER_TYPE::WEBP_FILTER_NONE);
    assert_eq!(WEBP_FILTER_TYPE::from_index(3), WEBP_FILTER_TYPE::WEBP_FILTER_GRADIENT);
    assert_eq!(WEBP_FILTER_TYPE::from_index(6), WEBP_FILTER_TYPE::WEBP_FILTER_FAST);
}

#[test]
fn estimate_best_filter_ignores_border_rows_columns_and_padding() {
    // 7 x 7 plane in rows of 9 bytes
    let (w, h, stride) = (7usize, 7usize, 9usize);
    let mut data = Vec::new();
    for y in 0..h {
        for x in 0..stride {
            data.push(((x * 37 + y * 11 + x * y * 5) % 256) as u8);
        }
    }
    let expected = estimate_best_filter(&data, w as i32, h as i32, stride as i32);
    let mut other = data.clone();
    for x in 0..stride {
        other[x] = 255 - other[x]; // first row
        other[(h - 1) * stride + x] ^= 0x5a; // last row
    }
    for y in 0..h {
        other[y * stride + w - 1] = 0; // last column
        other[y * stride + w] = 123; // padding
        other[y * stride + w + 1] = 9;
    }
    assert_eq!(estimate_best_filter(&other, w as i32, h as i32, stride as i32), expected);
}
