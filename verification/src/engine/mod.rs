//! Continuous-batching scheduler and speculative-decode verification.

pub mod scheduler;
pub mod speculative;
