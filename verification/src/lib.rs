//! Snappy raw block format: a compressor and a decompressor for byte streams,
//! with the wire format stated as a mathematical model and the codec proved
//! against it.

pub mod compress;
pub mod decompress;
pub mod dict;
pub mod emit;
pub mod lemmas;
pub mod stream;
pub mod util;
pub mod wire;

pub use compress::{compress, compress_with_options, CompressorOptions, MAX_BLOCK_SIZE};
pub use decompress::{decompress, SnappyError};
pub use stream::{ByteSink, LimitedSink, SliceReader, SnappyRead, SnappyWrite};
