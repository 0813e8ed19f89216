//! A classical cipher pipeline: a Hill cipher (block substitution by an
//! integer key matrix, modulo 26) composed with an optional rail fence
//! transposition of the resulting letters.
//!
//! The pipeline runs: raw key text -> key matrix; raw plaintext -> uppercase
//! letters -> numeric residues -> fixed-width blocks; (matrix, blocks) ->
//! numeric ciphertext -> letters -> rail fence permutation.

pub mod blocks;
pub mod codec;
pub mod hill;
pub mod key;
pub mod normalize;
pub mod rail;
