use webp_rs::utils::bit_writer_utils::{VP8BitWriter, VP8LBitWriter};

fn new_writer(expected_size: usize) -> VP8BitWriter {
    let mut w = VP8BitWriter::default();
    assert!(w.init(expected_size));
    w
}

#[test]
fn vp8_writer_init_state() {
    let w = new_writer(0);
    assert_eq!((w.range_, w.value_, w.run_, w.nb_bits_), (254, 0, 0, -8));
    assert_eq!((w.pos_, w.max_pos_, w.error_), (0, 0, 0));
    let w = new_writer(100);
    assert_eq!(w.max_pos_, 1024);
    assert_eq!(w.buf_.len(), 1024);
    let w = new_writer(5000);
    assert_eq!(w.max_pos_, 5000);
}

#[test]
fn vp8_put_bit_updates_registers() {
    let mut w = new_writer(0);
    assert_eq!(w.put_bit(1, 128), 1);
    assert_eq!(w.put_bit(0, 200), 0);
    assert_eq!(w.put_bit(1, 10), 1);
    assert_eq!((w.range_, w.value_, w.nb_bits_, w.run_, w.pos_), (189, 264, -7, 0, 0));
    assert_eq!(w.finish(), vec![132, 0, 0]);
    assert_eq!(w.nb_bits_, -8);
}

#[test]
fn vp8_two_ones_at_one_half() {
    let mut w = new_writer(0);
    w.put_bit(1, 128);
    w.put_bit(1, 128);
    assert_eq!((w.range_, w.value_, w.nb_bits_), (253, 766, -6));
}

#[test]
fn vp8_put_bits_most_significant_first() {
    let mut w = new_writer(0);
    w.put_bits(0x2a, 7);
    assert_eq!((w.range_, w.value_, w.nb_bits_, w.pos_), (127, 5376, -2, 0));
    assert_eq!(w.finish(), vec![84, 0, 0]);
}

#[test]
fn vp8_put_bits_equals_uniform_bits() {
    let mut a = new_writer(0);
    a.put_bits(0b1011, 4);
    let mut b = new_writer(0);
    for bit in [1, 0, 1, 1] {
        b.put_bit_uniform(bit);
    }
    assert_eq!((a.range_, a.value_, a.nb_bits_), (b.range_, b.value_, b.nb_bits_));
    assert_eq!(a.finish(), b.finish());
}

#[test]
fn vp8_put_signed_bits() {
    let mut w = new_writer(0);
    w.put_signed_bits(-3, 4);
    assert_eq!(w.finish(), vec![155, 200, 0]);
    let mut w = new_writer(0);
    w.put_signed_bits(0, 4);
    assert_eq!((w.range_, w.value_, w.nb_bits_), (127, 0, -8));
    assert_eq!(w.finish(), vec![0, 0, 0]);
}

#[test]
fn vp8_run_of_ff_bytes() {
    let mut w = new_writer(0);
    for _ in 0..40 {
        w.put_bit_uniform(1);
    }
    assert_eq!((w.run_, w.pos_), (3, 1));
    assert_eq!(w.finish(), vec![254, 255, 255, 255, 255, 2, 0]);
    assert_eq!(w.run_, 0);
}

#[test]
fn vp8_carry_propagates_over_delayed_run() {
    let mut w = new_writer(0);
    w.put_bits(0x1020409 >> 1, 24);
    // one 0xff byte is held back, pending a carry
    assert_eq!((w.run_, w.pos_, w.buf_[0]), (1, 1, 128));
    w.put_bit_uniform(1);
    // the carry reaches the byte before the run, and the run becomes 0x00
    assert_eq!((w.run_, w.pos_), (0, 3));
    assert_eq!(&w.buf_[..3], &[129, 0, 0]);
    assert_eq!(w.finish(), vec![129, 0, 0, 119, 0, 0]);
}

#[test]
fn vp8_put_bits_ignores_high_bits() {
    let mut a = new_writer(0);
    a.put_bits(0xff05, 4);
    let mut b = new_writer(0);
    b.put_bits(0x5, 4);
    assert_eq!((a.range_, a.value_, a.nb_bits_), (b.range_, b.value_, b.nb_bits_));
    assert_eq!(a.finish(), b.finish());
}

#[test]
fn vp8_put_bits_high_part_then_low_part() {
    let v: u32 = 0x2d3;
    let mut a = new_writer(0);
    a.put_bits(v, 10);
    let mut b = new_writer(0);
    b.put_bits(v >> 4, 6);
    b.put_bits(v & 0xf, 4);
    assert_eq!(a.finish(), vec![180, 86, 128, 0]);
    assert_eq!(b.finish(), vec![180, 86, 128, 0]);
}

#[test]
fn vp8_uniform_bit_is_half_probability() {
    let mut a = new_writer(0);
    let mut b = new_writer(0);
    for bit in [1, 0, 0, 1, 1, 1, 0, 1, 0, 0, 1, 1] {
        assert_eq!(a.put_bit_uniform(bit), bit);
        assert_eq!(b.put_bit(bit, 0x80), bit);
        assert_eq!((a.range_, a.value_, a.nb_bits_, a.pos_), (b.range_, b.value_, b.nb_bits_, b.pos_));
    }
    assert_eq!(a.finish(), b.finish());
}

#[test]
fn vp8_put_bit_keeps_bounds_and_never_rewinds() {
    let mut w = new_writer(0);
    let mut last_pos = w.pos_;
    for k in 0..300i32 {
        let prob = (k * 37) % 256;
        w.put_bit(k % 3, prob);
        assert!(127 <= w.range_ && w.range_ <= 254);
        assert!(-8 <= w.nb_bits_ && w.nb_bits_ <= 0);
        assert!(w.pos_ >= last_pos);
        assert_eq!(w.error_, 0);
        last_pos = w.pos_;
    }
    assert!(last_pos > 0);
}

#[test]
fn vp8_put_signed_bits_as_sign_magnitude_code() {
    let mut a = new_writer(0);
    a.put_signed_bits(-3, 4);
    let mut b = new_writer(0);
    b.put_bit_uniform(1);
    b.put_bits((3 << 1) | 1, 5);
    assert_eq!(a.finish(), b.finish());
    let mut a = new_writer(0);
    a.put_signed_bits(5, 4);
    let mut b = new_writer(0);
    b.put_bit_uniform(1);
    b.put_bits(5 << 1, 5);
    assert_eq!(a.finish(), vec![167, 176, 0]);
    assert_eq!(b.finish(), vec![167, 176, 0]);
}

#[test]
fn vp8_append_only_without_pending_bits() {
    let mut w = new_writer(0);
    assert!(w.append(&[1, 2, 3]));
    assert_eq!(w.pos_, 3);
    assert_eq!(&w.buf_[..3], &[1, 2, 3]);
    assert_eq!(w.finish(), vec![1, 2, 3, 0, 0]);
    assert!(w.append(&[7, 0xff]));
    assert_eq!(w.pos_, 7);
    // appending after bytes that end in 0xff is accepted too
    assert!(w.append(&[7]));
    assert_eq!(w.pos_, 8);
    assert_eq!(&w.buf_[5..8], &[7, 0xff, 7]);
    w.put_bit(1, 128);
    assert!(!w.append(&[9]));
    assert_eq!(w.pos_, 8);
}

#[test]
fn vp8_put_bits_after_appending_ff() {
    let mut w = new_writer(0);
    assert!(w.append(&[0x10, 0xff]));
    for bit in [0, 0, 1, 0, 0, 0, 0, 0, 0, 1, 0, 0] {
        w.put_bit_uniform(bit);
    }
    assert_eq!(w.error_, 0);
    let out = w.finish();
    assert_eq!(&out[..2], &[0x10, 0xff]);
    assert!(out.len() > 2);
}

#[test]
fn vp8_wipe_out_resets() {
    let mut w = new_writer(10);
    w.put_bit(1, 100);
    w.wipe_out();
    assert_eq!((w.range_, w.value_, w.run_, w.nb_bits_), (0, 0, 0, 0));
    assert_eq!((w.pos_, w.max_pos_, w.error_), (0, 0, 0));
    assert!(w.buf_.is_empty());
}

fn new_lwriter(expected_size: usize) -> VP8LBitWriter {
    let mut w = VP8LBitWriter::default();
    assert!(w.init(expected_size));
    w
}

#[test]
fn vp8l_init_allocates_multiple_of_1k() {
    let w = new_lwriter(0);
    assert_eq!((w.end_, w.cur_, w.used_, w.bits_), (1024, 0, 0, 0));
    let w = new_lwriter(1024);
    assert_eq!(w.end_, 2048);
    let w = new_lwriter(3000);
    assert_eq!(w.end_, 3072);
}

#[test]
fn vp8l_bits_are_packed_lsb_first() {
    let mut w = new_lwriter(0);
    w.put_bits_internal(0b101, 3);
    w.put_bits_internal(0x1f, 5);
    assert_eq!((w.bits_, w.used_), (0xfd, 8));
    assert_eq!(w.num_bytes(), 1);
    w.flush_bits();
    assert_eq!((w.cur_, w.used_, w.bits_), (1, 0, 0));
    assert_eq!(w.buf_[0], 0xfd);
    assert_eq!(w.num_bytes(), 1);
}

#[test]
fn vp8l_flush_before_overflowing_32_bits() {
    let mut w = new_lwriter(0);
    w.put_bits_internal(0xabcdef, 24);
    w.put_bits_internal(0x3, 2);
    assert_eq!((w.used_, w.cur_), (26, 0));
    w.put_bits_internal(0x1ff, 9);
    // 26 + 9 > 32: three whole bytes were flushed first
    assert_eq!(w.cur_, 3);
    assert_eq!(&w.buf_[..3], &[0xef, 0xcd, 0xab]);
    assert_eq!(w.used_, 11);
    assert_eq!(w.bits_, 0x3 | (0x1ff << 2));
    assert_eq!(w.num_bytes(), 5);
    w.put_bits_internal(0, 0);
    assert_eq!(w.used_, 11);
}

#[test]
fn vp8l_buffer_grows_when_full() {
    let mut w = new_lwriter(0);
    for i in 0..1100u32 {
        w.put_bits_internal(i & 0xff, 8);
    }
    w.flush_bits();
    assert_eq!(w.cur_, 1100);
    assert_eq!(w.end_, 3072);
    for i in 0..1100usize {
        assert_eq!(w.buf_[i], (i & 0xff) as u8);
    }
}

#[test]
fn vp8l_clone_reset_swap() {
    let mut a = new_lwriter(0);
    a.put_bits_internal(0x1234, 16);
    a.flush_bits();
    a.put_bits_internal(0x5, 3);
    let mut b = new_lwriter(0);
    assert!(b.clone_from(&a));
    assert_eq!(&b.buf_[..2], &[0x34, 0x12]);
    assert_eq!((b.bits_, b.used_, b.error_), (0x5, 3, 0));
    assert_eq!(b.cur_, 2);
    assert_eq!(b.num_bytes(), a.num_bytes());
    let init = new_lwriter(0);
    a.reset(&init);
    assert_eq!((a.bits_, a.used_, a.cur_), (0, 0, 0));
    let mut c = new_lwriter(0);
    c.put_bits_internal(1, 1);
    a.swap(&mut c);
    assert_eq!((a.bits_, a.used_), (1, 1));
    assert_eq!((c.bits_, c.used_), (0, 0));
    a.wipe_out();
    assert_eq!((a.bits_, a.used_, a.cur_, a.end_), (0, 0, 0, 0));
}

#[test]
fn vp8_init_refuses_impossible_buffer() {
    let mut w = VP8BitWriter::default();
    assert!(!w.init(usize::MAX));
    assert_eq!(w.error_, 1);
    assert_eq!(w.max_pos_, 0);
    assert_eq!((w.range_, w.nb_bits_), (254, -8));
}

#[test]
fn vp8l_init_refuses_impossible_buffer() {
    let mut w = VP8LBitWriter::default();
    assert!(!w.init(isize::MAX as usize + 1));
    assert_eq!(w.error_, 1);
    assert_eq!(w.end_, 0);
    // the rounded-up size of usize::MAX bytes wraps around to 0
    let mut w = VP8LBitWriter::default();
    assert!(w.init(usize::MAX));
    assert_eq!((w.end_, w.error_), (0, 0));
}
