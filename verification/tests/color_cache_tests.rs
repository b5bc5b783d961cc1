use webp_rs::utils::color_cache_utils::{VP8LColorCache, HASH_MUL};

fn cache(bits: i32) -> VP8LColorCache {
    let mut c = VP8LColorCache::default();
    assert!(c.init(bits));
    c
}

#[test]
fn init_sizes_the_cache() {
    let c = cache(4);
    assert_eq!(c.colors_, vec![0u32; 16]);
    assert_eq!((c.hash_bits_, c.hash_shift_), (4, 28));
    let mut c = VP8LColorCache::default();
    assert!(!c.init(31));
    assert!(c.colors_.is_empty());
}

#[test]
fn hash_pix_values() {
    assert_eq!(VP8LColorCache::hash_pix(1, 28), (HASH_MUL >> 28) as i32);
    assert_eq!(VP8LColorCache::hash_pix(0, 20), 0);
    assert_eq!(VP8LColorCache::hash_pix(0xff000000, 21), ((0xff000000u32.wrapping_mul(HASH_MUL)) >> 21) as i32);
    assert_eq!(VP8LColorCache::hash_pix(3, 0), (3u32.wrapping_mul(HASH_MUL)) as i32);
}

#[test]
fn insert_then_contains() {
    let mut c = cache(6);
    let argb = 0xff336699u32;
    let key = c.get_index(argb);
    assert!(key >= 0 && key < 64);
    assert_eq!(c.contains(argb), -1);
    c.insert(argb);
    assert_eq!(c.contains(argb), key);
    assert_eq!(c.lookup(key as u32), argb);
}

#[test]
fn set_then_lookup() {
    let mut c = cache(3);
    c.set(5, 0x12345678);
    assert_eq!(c.lookup(5), 0x12345678);
    assert_eq!(c.lookup(4), 0);
}

#[test]
fn copy_and_clear() {
    let mut a = cache(2);
    a.set(1, 7);
    a.set(3, 9);
    let mut b = cache(2);
    b.copy_from(&a);
    assert_eq!(b.colors_, vec![0, 7, 0, 9]);
    b.clear();
    assert!(b.colors_.is_empty());
    assert_eq!(b.hash_bits_, 2);
}

#[test]
fn get_index_needs_only_a_shift() {
    let c = VP8LColorCache::default();
    // shift 0: the whole product, taken as an i32
    assert_eq!(c.get_index(1), HASH_MUL as i32);
    let c = cache(4);
    assert_eq!(c.get_index(1), (HASH_MUL >> 28) as i32);
}
