//! Bit-packed DNA k-mers, their canonical forms, a 2-bit packed sequence
//! container and sliding-window minimizers.
pub mod base;
pub mod canonical_kmer;
pub mod canonical_kmer_iterator;
pub mod checked;
pub mod hash;
pub mod kmer;
pub mod minimizers;
pub mod seq_vector;
pub mod utils;

pub use base::{Base, A, C, G, T};
pub use canonical_kmer::{CanonicalKmer, MatchType};
pub use canonical_kmer_iterator::CanonicalKmerIterator;
pub use kmer::Kmer;
