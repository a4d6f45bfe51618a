//! Turns a text into fixed-width blocks of bits for a block cipher:
//! text to bytes, bytes to bits (most significant bit first), and bits to
//! blocks whose last one is zero-padded at its front.

pub mod bits;
pub mod blocks;
pub mod storage;

pub use bits::from_byte_to_bits;
pub use blocks::{segment_bits, Block, BLOCK_SIZE};
pub use storage::{Cli, CliTrait, RootTrait, RootTx};
