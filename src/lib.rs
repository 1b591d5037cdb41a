//! Weighted rendezvous hashing: a MurmurHash3 byte mixer and a ranking of
//! buckets by a multiplied, 32-bit truncated score.
pub mod hash;
pub mod rank;
