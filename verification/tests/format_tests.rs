use webp_rs::utils::utils::get_le32;
use webp_rs::webp::format_constants::{
    mkfourcc, VP8LImageTransformType, CHUNK_HEADER_SIZE, MAX_CHUNK_PAYLOAD,
};

#[test]
fn fourcc_is_little_endian_tag() {
    assert_eq!(mkfourcc(b'V', b'P', b'8', b'L'), 0x4c385056);
    assert_eq!(mkfourcc(b'R', b'I', b'F', b'F'), get_le32(b"RIFF"));
    assert_eq!(mkfourcc(0, 0, 0, 0), 0);
    assert_eq!(mkfourcc(0xff, 0xff, 0xff, 0xff), u32::MAX);
}

#[test]
fn format_constants_values() {
    assert_eq!(MAX_CHUNK_PAYLOAD, !0u32 - CHUNK_HEADER_SIZE - 1);
    assert_eq!(VP8LImageTransformType::SubtractGreenTransform as u32, 2);
    assert_eq!(VP8LImageTransformType::ColorIndexingTransform as u32, 3);
}


#[test]
fn webp_malloc_allocates() {
    assert_eq!(webp_rs::webp::types::WebPMalloc(7), vec![0u8; 7]);
}
