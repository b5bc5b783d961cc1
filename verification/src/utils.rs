pub mod bit_reader_utils;
pub mod bit_writer_utils;
pub mod utils;
pub mod filters_utils;
pub mod color_cache_utils;
pub mod bool_coder_round_trip;
