//! Physical block pool, sequence page tables and the radix prefix index.

pub mod block_manager;
pub mod model;
pub mod radix;
pub mod accounting;
pub mod laws;
