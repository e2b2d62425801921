//! A lossless image codec: run-length, cache-index, and delta compression of
//! row-major 8-bit RGB/RGBA pixel buffers into a compact byte stream, with an
//! exactly mirrored decoder and a machine-checked round-trip proof.

pub mod buffer;
pub mod cache;
pub mod decode;
pub mod encode;
pub mod format;
pub mod laws;
pub mod pixel;

pub use buffer::pixels_from_bytes;
pub use cache::PixelHistoryCache;
pub use decode::DecodedImage;
pub use decode::decode;
pub use encode::encode;
pub use format::CodecError;
pub use pixel::Pixel;
pub use pixel::qoi_calculate_index;
