# webp_rs

Building blocks of a WebP codec, written in Verus and verified.

- `src/utils/bit_reader_utils.rs`: the VP8 boolean decoder (`VP8BitReader`)
  and the range tables shared with the encoder.
- `src/utils/bit_writer_utils.rs`: the VP8 boolean encoder (`VP8BitWriter`)
  and the VP8L bit writer (`VP8LBitWriter`), with the bit-stream laws of the
  latter (bits are appended least significant first; flushing keeps the
  stream).
- `src/utils/color_cache_utils.rs`: the lossless color cache
  (`VP8LColorCache`).
- `src/utils/filters_utils.rs`: the fast alpha-filter estimator.
- `src/utils/utils.rs`: size checks, checked allocation, little-endian
  reads and writes, bit counting and plane copies.
- `src/utils/bool_coder_round_trip.rs`: the proof that the boolean decoder
  reads back what the boolean encoder writes.
- `src/webp/`: format constants and common types.

Each encoder and decoder is described by an abstract state (its view) and
spec functions that say what every operation does to it, and its invariant
is kept by every operation.  The boolean encoder's last written byte can
take a carry unless bytes ending in 0xff were appended to it; after such an
append, encoding is admitted as long as no carry reaches that byte.  Buffers are `Vec`s: the memory the
coders write into grows by the same policy as a `malloc`-backed buffer would,
and an allocation beyond `isize::MAX` bytes is reported as a failure.

The allocation limit follows the width of `usize`: 16 GiB where it has 64
bits, 2 GiB less 64 KiB where it has 32.  The boolean decoder's bit window
has 8 bytes where `usize` has 64 bits and 4 where it has 32.
