//! Carry propagation for radix integers.
//!
//! A radix integer is a sequence of blocks, least significant first. Each
//! block holds one digit below the message modulus and, above it, carry
//! space up to the total modulus. Adding two radix integers block by block
//! leaves carries in that space; this library resolves them, with the
//! dependency chain from block to block turned into a parallel prefix scan,
//! and reduces whole sequences of radix integers pairwise.
//!
//! The library works on the value that a block encodes, and every contract
//! is stated over those values: which digits come out, and that no block
//! operation is ever asked to go past the total modulus.
//!
//! - `block`: blocks, lookup tables and the key that evaluates on them
//! - `radix`: radix integers, their normalization and their plain sum
//! - `digits`, `carry`: the arithmetic of digit sequences and of carry
//!   statuses that the contracts are stated in
//! - `classify`: the carry status of every block of a sum
//! - `scan`: the two prefix scans over carry statuses
//! - `add`: the additions
//! - `reduce`: pairwise reduction of a sequence under a binary operator
//! - `laws`: what holds of sums, normalization and reductions as a whole
//! - `parallel`: what is taken from rayon without proof

pub mod add;
pub mod block;
pub mod carry;
pub mod classify;
pub mod digits;
pub mod laws;
pub mod parallel;
pub mod radix;
pub mod reduce;
pub mod scan;
