//! A lossy transform codec for 8-bit grayscale, RGB and RGBA images.
//!
//! Each channel is cut into 8x8 blocks, transformed with a fixed-point DCT, quantized
//! with a quality-scaled table and written as run-length records in zigzag order, after a
//! 12-byte header and before an optional color-profile trailer. The decoder parses the
//! same format back, checking every read against the end of the stream.
//!
//! Every function states its behaviour over the specification functions of its module;
//! the laws that tie the stages together (quantization error, record round trip,
//! encode-then-decode, truncation, trailing bytes, uniform images) are proof functions.
pub mod bitstream;
pub mod block;
pub mod zigzag;
pub mod dct;
pub mod quant;
pub mod entropy;
pub mod blockizer;
pub mod container;
pub mod encoder;
pub mod decoder;
