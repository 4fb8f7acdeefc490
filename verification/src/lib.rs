//! NexusKV: a paged key-value cache manager with radix prefix sharing,
//! a continuous-batching scheduler and speculative-decode verification.
//!
//! The block allocator, page tables, prefix trie, scheduler and verifier
//! are verified against the contracts stated on each function.

pub mod config;
pub mod memory;
pub mod engine;
pub mod server;
pub mod kernels;
