//! A fixed-rate lossy codec for 8-bit grayscale images: every aligned 4x4
//! block becomes six bytes (two endpoints and sixteen 2-bit codewords).
pub mod palette;
pub mod block;
pub mod image;

pub use palette::get_options_table;
pub use block::{choose_codeword, compress_block};
pub use image::{compress, decompress, decompress_pixel, select_block, CodecError};
