//! Verified pancake-flipping (fannkuch) statistics engine, together with the
//! small factorial and prime-search helpers that share its numeric kernel.
//!
//! The core computes, for a permutation size `n`, the maximum flip count over
//! all `n!` permutations of `{0, ..., n-1}` and the alternating-sign checksum
//! of the flip counts taken in a fixed generation order. The index space
//! `[0, n!)` is split into contiguous blocks; each block seeds its starting
//! permutation directly from its index, walks the block with an incremental
//! successor step, and the per-block partial results are combined with
//! `(sum, max)`.

pub mod factorials;
pub mod primes;
pub mod perm_model;
pub mod flip_count;
pub mod state;
pub mod blocks;
pub mod engine;
