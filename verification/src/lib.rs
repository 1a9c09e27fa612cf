//! Approximate similarity search for trajectories: locality-sensitive sketches
//! indexed by a dynamic adaptive radix trie under Hamming distance.

pub mod config;
pub mod dyft;
pub mod id;
pub mod lsh;
pub mod util;
