use webp_rs::utils::bit_writer_utils::VP8BitWriter;
use webp_rs::utils::bit_reader_utils::{
    vp8_bit_reader_set_buffer, vp8_get_bit, vp8_get_signed_value, vp8_get_value, vp8_init_bit_reader,
    vp8_load_new_bytes, vp8_log2_range, vp8_new_range, vp8_remap_bit_reader, VP8BitReader,
};

fn reader(data: &[u8]) -> VP8BitReader {
    let mut br = VP8BitReader::default();
    vp8_init_bit_reader(&mut br, data, data.len());
    br
}

#[test]
fn range_tables() {
    assert_eq!(vp8_log2_range(0), 7);
    assert_eq!(vp8_log2_range(2), 6);
    assert_eq!(vp8_log2_range(63), 1);
    assert_eq!(vp8_log2_range(127), 0);
    assert_eq!(vp8_new_range(0), 127);
    assert_eq!(vp8_new_range(2), 191);
    assert_eq!(vp8_new_range(126), 253);
    assert_eq!(vp8_new_range(127), 127);
}

#[test]
fn init_loads_first_byte() {
    let br = reader(&[0x12, 0x34, 0x56, 0x78]);
    assert_eq!((br.value_, br.bits_, br.range_, br.buf_, br.eof_), (0x12, 0, 254, 1, 0));
    let window = if usize::BITS == 64 { 8 } else { 4 };
    assert_eq!((br.buf_end_, br.buf_max_), (4, if window == 8 { 0 } else { 1 }));
    let br = reader(&[0u8; 10]);
    assert_eq!(br.buf_max_, 10 - window + 1);
}

#[test]
fn get_bit_decodes() {
    let mut br = reader(&[0x12, 0x34, 0x56, 0x78]);
    assert_eq!(vp8_get_bit(&mut br, 128), 0);
    assert_eq!((br.range_, br.value_, br.bits_), (127, 18, 0));
    let mut br = reader(&[0x12, 0x34, 0x56, 0x78, 0x9a, 0xbc]);
    let bits: Vec<i32> = [10, 200, 128, 128, 255, 1, 77].iter().map(|&p| vp8_get_bit(&mut br, p)).collect();
    assert_eq!(bits, vec![1, 0, 0, 0, 0, 1, 0]);
    assert_eq!((br.range_, br.value_, br.bits_, br.buf_, br.eof_), (227, 2036, 4, 2, 0));
}

#[test]
fn get_value_and_signed_value() {
    let mut br = reader(&[0x12, 0x34, 0x56, 0x78]);
    assert_eq!(vp8_get_value(&mut br, 8), 18);
    assert_eq!((br.range_, br.bits_, br.buf_), (127, 1, 2));
    let mut br = reader(&[0xff, 0xff]);
    assert_eq!(vp8_get_signed_value(&mut br, 4), -15);
    let mut br = reader(&[0xff, 0xff]);
    assert_eq!(vp8_get_value(&mut br, 4), 15);
    assert_eq!(vp8_get_bit(&mut br, 128), 1);
    let mut br = reader(&[0xff]);
    assert_eq!(vp8_get_value(&mut br, 0), 0);
}

#[test]
fn end_of_input() {
    let br = reader(&[]);
    assert_eq!((br.value_, br.bits_, br.eof_), (0, 0, 1));
    let mut br = reader(&[0x80]);
    let bits: Vec<i32> = (0..20).map(|_| vp8_get_bit(&mut br, 128)).collect();
    assert_eq!(bits[0], 1);
    assert!(bits[1..].iter().all(|&b| b == 0));
    assert_eq!((br.eof_, br.bits_), (1, 0));
    let mut br = reader(&[]);
    vp8_load_new_bytes(&mut br);
    assert_eq!((br.bits_, br.eof_), (0, 1));
}

#[test]
fn set_buffer_and_remap() {
    let data: Vec<u8> = (0..20).collect();
    let mut br = VP8BitReader::default();
    vp8_bit_reader_set_buffer(&mut br, &data, 12);
    let max = if usize::BITS == 64 { 5 } else { 9 };
    assert_eq!((br.buf_, br.buf_end_, br.buf_max_), (0, 12, max));
    vp8_remap_bit_reader(&mut br, 3);
    assert_eq!((br.buf_, br.buf_end_, br.buf_max_), (3, 15, max + 3));
    vp8_remap_bit_reader(&mut br, -2);
    assert_eq!((br.buf_, br.buf_end_, br.buf_max_), (1, 13, max + 1));
    vp8_load_new_bytes(&mut br);
    assert_eq!((br.value_, br.buf_, br.bits_), (1, 2, 8));
    let mut empty = VP8BitReader::default();
    vp8_remap_bit_reader(&mut empty, 5);
    assert_eq!((empty.buf_, empty.buf_end_, empty.buf_max_), (0, 0, 0));
}

fn read_back(v: u32, n: i32) -> u32 {
    let mut w = VP8BitWriter::default();
    assert!(w.init(0));
    w.put_bits(v, n);
    let out = w.finish();
    assert_eq!(w.error_, 0);
    let mut br = reader(&out);
    vp8_get_value(&mut br, n)
}

#[test]
fn decoder_reads_back_what_the_encoder_wrote() {
    assert_eq!(read_back(0x2a, 7), 0x2a);
    assert_eq!(read_back(1, 4), 1);
    assert_eq!(read_back(0, 1), 0);
    assert_eq!(read_back(1, 1), 1);
    assert_eq!(read_back(0x7fff_ffff, 31), 0x7fff_ffff);
    assert_eq!(read_back(0xffff_ff05, 8), 0x05);
    let mut x: u32 = 12345;
    for n in 1..32 {
        x = x.wrapping_mul(1_103_515_245).wrapping_add(12345);
        assert_eq!(read_back(x, n), x & ((1u32 << n) - 1));
    }
}

#[test]
fn decoder_follows_mixed_probabilities() {
    let probs = [10, 200, 128, 1, 255, 77, 128, 3, 250, 128];
    let bits = [1, 0, 1, 1, 0, 1, 0, 0, 1, 1];
    let mut w = VP8BitWriter::default();
    assert!(w.init(0));
    for i in 0..probs.len() {
        w.put_bit(bits[i], probs[i]);
    }
    let out = w.finish();
    let mut br = reader(&out);
    for i in 0..probs.len() {
        assert_eq!(vp8_get_bit(&mut br, probs[i]), bits[i]);
    }
}

#[test]
fn decoder_accepts_a_wider_window() {
    let mut w = VP8BitWriter::default();
    assert!(w.init(0));
    w.put_bits(0x1234_5678, 31);
    let out = w.finish();
    let mut br = reader(&out);
    vp8_load_new_bytes(&mut br);
    assert_eq!(br.bits_, 8);
    assert_eq!(vp8_get_value(&mut br, 31), 0x1234_5678);
}
