//! Prefix-filtered k-mer counting over sequence records, and overlap
//! statistics between two such counts.

pub mod config;
pub mod index;
pub mod kmers;
pub mod record;

pub use config::Config;
pub use index::{intersect_counters, intersect_keys, KmerIndex, Kstats};
pub use kmers::{hash_kmer, kmerize, try_hash_kmer};
pub use record::Record;
