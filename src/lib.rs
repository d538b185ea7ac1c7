//! Block-wise compression of sorted `u32` sequences (posting lists).
//!
//! A sequence is cut into blocks of `BLOCK_LEN` integers. Every full block is
//! delta-encoded against a running baseline and bit-packed behind a one-byte
//! width header. A trailing partial block is left to a variable-byte delta
//! codec: the encoder and decoder say where it starts and which baseline it
//! takes. The compressed bytes carry no length: the decoder is told how many
//! integers to read back.
pub mod compress;
pub mod ioqp;

pub use compress::{Compressor, SimdBPandStreamVbyte, BLOCK_LEN, BLOCK_LEN_M1, CodecError};
pub use ioqp::{ioqp_decode, ioqp_encode, DecodedBlocks, EncodedBlocks};
