//! An exact 32-mer matching engine for nucleotide sequences.
//!
//! Needle sequences of exactly 32 symbols over the alphabet `{A, C, G, T}`
//! (case-insensitive) are packed into 64-bit keys and stored in a
//! fixed-capacity, linearly probed index with per-key hit counters.  A
//! sliding-window scanner walks each haystack sequence once, maintaining a
//! rolling two-bit encoding of the current window, and increments the
//! counter of every needle whose packed key equals the window's key.

pub mod alphabet;
pub mod compress;
pub mod constants;
pub mod fasta;
pub mod fasta_read;
pub mod hash;
pub mod hashmap;
pub mod orchestrate;
pub mod search;
pub mod sequence;
