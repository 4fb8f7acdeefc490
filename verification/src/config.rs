//! Engine runtime configuration: pool size, block geometry and batch limits.

use vstd::prelude::*;

verus! {

/// Engine runtime configuration parameters for memory and scheduling.
#[derive(Debug, Clone, Copy, PartialEq, Eq, Structural)]
pub struct EngineConfig {
    /// Total number of physical blocks in the key-value pool.
    pub total_physical_blocks: usize,
    /// Number of tokens stored per physical block.
    pub block_size: usize,
    /// Number of attention heads.
    pub num_heads: usize,
    /// Dimension per attention head.
    pub head_dim: usize,
    /// Maximum number of concurrent sequences in the active batch.
    pub max_num_seqs: usize,
    /// Maximum physical blocks assignable to a single sequence.
    pub max_blocks_per_seq: usize,
    /// Model layer count.
    pub num_layers: usize,
}

impl Default for EngineConfig {
    fn default() -> (cfg: Self)
        ensures
            cfg.total_physical_blocks == 512,
            cfg.block_size == 16,
            cfg.num_heads == 8,
            cfg.head_dim == 64,
            cfg.max_num_seqs == 16,
            cfg.max_blocks_per_seq == 32,
            cfg.num_layers == 1,
    {
        EngineConfig {
            total_physical_blocks: 512,
            block_size: 16,
            num_heads: 8,
            head_dim: 64,
            max_num_seqs: 16,
            max_blocks_per_seq: 32,
            num_layers: 1,
        }
    }
}

impl EngineConfig {
    /// Total token capacity of the physical memory pool.
    pub fn max_token_capacity(&self) -> (r: usize)
        requires
            self.total_physical_blocks * self.block_size <= usize::MAX,
        ensures
            r == self.total_physical_blocks * self.block_size,
    {
        self.total_physical_blocks * self.block_size
    }

    /// Maximum token length permissible for an individual sequence.
    pub fn max_seq_token_length(&self) -> (r: usize)
        requires
            self.max_blocks_per_seq * self.block_size <= usize::MAX,
        ensures
            r == self.max_blocks_per_seq * self.block_size,
    {
        self.max_blocks_per_seq * self.block_size
    }
}

} // verus!
