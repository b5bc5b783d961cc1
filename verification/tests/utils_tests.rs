use webp_rs::utils::utils::{
    bits_ctz, bits_log2_floor, check_size_arguments_overflow, check_size_overflow, copy_plane,
    get_le16, get_le24, get_le32, put_le16, put_le24, put_le32, WebPSafeCalloc, WebPSafeMalloc,
    webp_max_allocable_memory,
};

#[test]
fn get_le_reads_little_endian() {
    let d = [0x78u8, 0x56, 0x34, 0x12, 0xff];
    assert_eq!(get_le16(&d), 0x5678);
    assert_eq!(get_le24(&d), 0x345678);
    assert_eq!(get_le32(&d), 0x12345678);
    assert_eq!(get_le32(&[0xff, 0xff, 0xff, 0xff]), 0xffff_ffff);
}

#[test]
fn put_le_writes_little_endian() {
    let mut d = [9u8; 5];
    put_le16(&mut d, 0x1234);
    assert_eq!(d, [0x34, 0x12, 9, 9, 9]);
    put_le24(&mut d, 0xabcdef);
    assert_eq!(d, [0xef, 0xcd, 0xab, 9, 9]);
    put_le32(&mut d, 0xdeadbeef);
    assert_eq!(d, [0xef, 0xbe, 0xad, 0xde, 9]);
    put_le16(&mut d, -1);
    assert_eq!(d, [0xff, 0xff, 0xad, 0xde, 9]);
}

#[test]
fn le_roundtrips() {
    let mut d = [0u8; 4];
    for v in [0i32, 1, 255, 256, 0x7fff, 0xffff] {
        put_le16(&mut d, v);
        assert_eq!(get_le16(&d), v);
    }
    for v in [0i32, 0x10203, 0xffffff] {
        put_le24(&mut d, v);
        assert_eq!(get_le24(&d), v);
    }
    for v in [0u32, 0x01020304, 0xffff_ffff] {
        put_le32(&mut d, v);
        assert_eq!(get_le32(&d), v);
    }
}

#[test]
fn log2_floor_and_ctz() {
    assert_eq!(bits_log2_floor(1), 0);
    assert_eq!(bits_log2_floor(2), 1);
    assert_eq!(bits_log2_floor(3), 1);
    assert_eq!(bits_log2_floor(1024), 10);
    assert_eq!(bits_log2_floor(0xffff_ffff), 31);
    assert_eq!(bits_log2_floor(0), -1);
    assert_eq!(bits_ctz(1), 0);
    assert_eq!(bits_ctz(8), 3);
    assert_eq!(bits_ctz(0x80000000), 31);
    assert_eq!(bits_ctz(12), 2);
    assert_eq!(bits_ctz(0), 32);
}

#[test]
fn size_checks() {
    assert!(check_size_overflow(0));
    assert!(check_size_overflow(u32::MAX as u64));
    assert_eq!(check_size_overflow(u64::MAX), usize::MAX as u64 == u64::MAX);
    assert!(check_size_arguments_overflow(0, 12345));
    assert!(check_size_arguments_overflow(16, 1024));
    assert!(check_size_arguments_overflow(1, webp_max_allocable_memory() as usize));
    assert!(!check_size_arguments_overflow(2, webp_max_allocable_memory() as usize));
    assert!(!check_size_arguments_overflow(1 << 40, 1));
}

#[test]
fn allocation_limit_follows_pointer_width() {
    let expected: u64 = if usize::BITS == 64 { 1 << 34 } else { (1 << 31) - (1 << 16) };
    assert_eq!(webp_max_allocable_memory(), expected);
    assert!(check_size_arguments_overflow(1 << 16, 1 << 14) == (usize::BITS == 64));
}

#[test]
fn safe_allocations() {
    let v = WebPSafeCalloc(3, 5).unwrap();
    assert_eq!(v, vec![0u8; 15]);
    assert_eq!(WebPSafeMalloc(4, 4).unwrap().len(), 16);
    assert!(WebPSafeCalloc(1 << 40, 1).is_none());
    assert!(WebPSafeMalloc(2, webp_max_allocable_memory() as usize).is_none());
}

#[test]
fn copy_plane_honors_strides() {
    let src: Vec<u8> = (0..20).collect();
    let mut dst = vec![0xaau8; 12];
    copy_plane(&src, 5, &mut dst, 4, 3, 3);
    assert_eq!(dst, vec![0, 1, 2, 0xaa, 5, 6, 7, 0xaa, 10, 11, 12, 0xaa]);
}

#[test]
fn copy_plane_without_rows_copies_nothing() {
    let src = vec![1u8; 4];
    let mut dst = vec![2u8; 4];
    copy_plane(&src, 2, &mut dst, 2, 2, 0);
    assert_eq!(dst, vec![2u8; 4]);
}
