//! Verified core of a k-mer counting service.
//!
//! The crate is organised around three concerns:
//! - the k-mer engine: bit-level hashing of fixed-length DNA subsequences,
//!   streaming window counts, and reverse complements;
//! - the task data model: users with time quotas, tasks with a forward-only
//!   status lifecycle, and an in-memory task store;
//! - the worker decisions: quota-derived deadlines, outcome classification,
//!   and reconciliation of finished tasks.

pub mod auth;
pub mod counting;
pub mod errors;
pub mod fasta;
pub mod kmer;
pub mod models;
pub mod store;
pub mod table;
pub mod topk;
pub mod worker;

pub use kmer::KmerHash;
