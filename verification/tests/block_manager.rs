use nexuskv::memory::block_manager::{BlockSpaceManager, MemoryError, BlockInspectInfo};

#[test]
fn test_allocation_and_free() {
    let mut manager = BlockSpaceManager::new(4, 16, 4);
    assert_eq!(manager.free_blocks_count(), 4);

    let b1 = manager.allocate_block().unwrap();
    let b2 = manager.allocate_block().unwrap();
    assert_eq!(manager.free_blocks_count(), 2);

    manager.free_block(b1).unwrap();
    assert_eq!(manager.free_blocks_count(), 3);

    manager.free_block(b2).unwrap();
    assert_eq!(manager.free_blocks_count(), 4);
}

#[test]
fn test_sequence_lifecycle_and_rollback() {
    let mut manager = BlockSpaceManager::new(10, 16, 4);
    manager.register_sequence(101).unwrap();

    manager.append_tokens(101, 20).unwrap();
    assert_eq!(manager.allocated_blocks_count(), 2);

    manager.rollback_sequence(101, 12).unwrap();
    assert_eq!(manager.allocated_blocks_count(), 1);

    manager.free_sequence(101).unwrap();
    assert_eq!(manager.allocated_blocks_count(), 0);
}

#[test]
fn test_copy_on_write_fork() {
    let mut manager = BlockSpaceManager::new(10, 16, 4);
    manager.register_sequence(1).unwrap();
    manager.append_tokens(1, 16).unwrap();

    manager.fork_sequence_cow(1, 2).unwrap();
    assert_eq!(manager.allocated_blocks_count(), 1);

    manager.free_sequence(1).unwrap();
    assert_eq!(manager.allocated_blocks_count(), 1);

    manager.free_sequence(2).unwrap();
    assert_eq!(manager.allocated_blocks_count(), 0);
}

#[test]
fn test_radix_prefix_cache_hit_and_sharing() {
    let mut manager = BlockSpaceManager::new(16, 16, 8);

    let prompt_tokens: Vec<u32> = (0..32).collect();

    let matched1 = manager.match_or_allocate_prefix(1, &prompt_tokens).unwrap();
    assert_eq!(matched1, 0);
    assert_eq!(manager.allocated_blocks_count(), 2);

    let matched2 = manager.match_or_allocate_prefix(2, &prompt_tokens).unwrap();
    assert_eq!(matched2, 2);
    assert_eq!(manager.allocated_blocks_count(), 2);

    manager.free_sequence(1).unwrap();
    assert_eq!(manager.allocated_blocks_count(), 2);

    manager.free_sequence(2).unwrap();
    assert_eq!(manager.allocated_blocks_count(), 0);
}

#[test]
fn test_export_cuda_block_tables() {
    let mut manager = BlockSpaceManager::new(16, 16, 4);
    manager.register_sequence(1).unwrap();
    manager.append_tokens(1, 32).unwrap();

    let (flat_tables, seq_lens) = manager.export_cuda_block_tables(&[1]);
    assert_eq!(seq_lens, vec![32]);
    assert_eq!(flat_tables.len(), 4);
    assert!(flat_tables[0] >= 0);
    assert!(flat_tables[1] >= 0);
    assert_eq!(flat_tables[2], -1);
}

#[test]
fn blocks_are_handed_out_lowest_id_first() {
    let mut manager = BlockSpaceManager::new(3, 16, 4);
    assert_eq!(manager.allocate_block(), Ok(0));
    assert_eq!(manager.allocate_block(), Ok(1));
    assert_eq!(manager.allocate_block(), Ok(2));
    assert_eq!(manager.allocate_block(), Err(MemoryError::OutOfMemory));
    assert_eq!(manager.free_blocks_count(), 0);
    assert_eq!(manager.allocated_blocks_count(), 3);
}

#[test]
fn freed_block_is_reused_first() {
    let mut manager = BlockSpaceManager::new(4, 16, 4);
    let a = manager.allocate_block().unwrap();
    let _b = manager.allocate_block().unwrap();
    manager.free_block(a).unwrap();
    assert_eq!(manager.allocate_block(), Ok(a));
}

#[test]
fn double_free_and_out_of_range_are_refused() {
    let mut manager = BlockSpaceManager::new(2, 16, 4);
    let b = manager.allocate_block().unwrap();
    manager.free_block(b).unwrap();
    assert_eq!(manager.free_block(b), Err(MemoryError::DoubleFree(b)));
    assert_eq!(manager.free_block(7), Err(MemoryError::DoubleFree(7)));
    assert_eq!(manager.free_blocks_count(), 2);
}

#[test]
fn unknown_sequences_are_reported() {
    let mut manager = BlockSpaceManager::new(4, 16, 4);
    assert_eq!(manager.append_tokens(9, 1), Err(MemoryError::SequenceNotFound(9)));
    assert_eq!(manager.rollback_sequence(9, 1), Err(MemoryError::SequenceNotFound(9)));
    assert_eq!(manager.fork_sequence_cow(9, 10), Err(MemoryError::SequenceNotFound(9)));
    assert_eq!(manager.free_sequence(9), Ok(()));
    assert_eq!(manager.get_sequence_blocks(9), None);
}

#[test]
fn append_beyond_sequence_capacity_is_refused() {
    let mut manager = BlockSpaceManager::new(10, 16, 2);
    manager.register_sequence(1).unwrap();
    assert_eq!(manager.append_tokens(1, 33), Err(MemoryError::CapacityExceeded));
    assert_eq!(manager.allocated_blocks_count(), 0);
    assert_eq!(manager.get_sequence_blocks(1), Some(vec![]));
    manager.append_tokens(1, 32).unwrap();
    assert_eq!(manager.get_sequence_blocks(1), Some(vec![0, 1]));
}

#[test]
fn append_out_of_memory_keeps_claimed_blocks() {
    let mut manager = BlockSpaceManager::new(2, 4, 8);
    manager.register_sequence(1).unwrap();
    assert_eq!(manager.append_tokens(1, 12), Err(MemoryError::OutOfMemory));
    // Both free blocks were claimed before the pool ran dry; the table is unchanged.
    assert_eq!(manager.free_blocks_count(), 0);
    assert_eq!(manager.get_sequence_blocks(1), Some(vec![]));
}

#[test]
fn append_rounds_up_to_whole_blocks() {
    let mut manager = BlockSpaceManager::new(10, 16, 8);
    manager.register_sequence(5).unwrap();
    manager.append_tokens(5, 1).unwrap();
    assert_eq!(manager.get_sequence_blocks(5), Some(vec![0]));
    manager.append_tokens(5, 15).unwrap();
    assert_eq!(manager.get_sequence_blocks(5), Some(vec![0]));
    manager.append_tokens(5, 1).unwrap();
    assert_eq!(manager.get_sequence_blocks(5), Some(vec![0, 1]));
}

#[test]
fn rollback_to_zero_releases_every_block() {
    let mut manager = BlockSpaceManager::new(10, 16, 8);
    manager.register_sequence(3).unwrap();
    manager.append_tokens(3, 40).unwrap();
    assert_eq!(manager.allocated_blocks_count(), 3);
    manager.rollback_sequence(3, 0).unwrap();
    assert_eq!(manager.allocated_blocks_count(), 0);
    assert_eq!(manager.get_sequence_blocks(3), Some(vec![]));
    // Released last block first: block 2 goes back first, so block 0 is on top.
    assert_eq!(manager.allocate_block(), Ok(0));
}

#[test]
fn fork_shares_blocks_with_reference_counts() {
    let mut manager = BlockSpaceManager::new(10, 16, 8);
    manager.register_sequence(1).unwrap();
    manager.append_tokens(1, 20).unwrap();
    manager.fork_sequence_cow(1, 2).unwrap();
    assert_eq!(manager.get_sequence_blocks(2), Some(vec![0, 1]));
    let info = manager.get_block_inspect_info();
    assert_eq!(info[0].ref_count, 2);
    assert_eq!(info[1].ref_count, 2);
    assert_eq!(info[2].ref_count, 0);
}

#[test]
fn inspect_info_reports_each_block() {
    let mut manager = BlockSpaceManager::new(3, 16, 8);
    manager.register_sequence(4).unwrap();
    manager.append_tokens(4, 1).unwrap();
    manager.set_block_speculative(0, true);
    manager.set_block_speculative(99, true);
    let info = manager.get_block_inspect_info();
    assert_eq!(info.len(), 3);
    assert_eq!(
        info[0],
        BlockInspectInfo {
            block_id: 0,
            ref_count: 1,
            is_free: false,
            mapped_seq_id: Some(4),
            is_prefix_cached: false,
            is_speculative: true,
        }
    );
    assert_eq!(
        info[1],
        BlockInspectInfo {
            block_id: 1,
            ref_count: 0,
            is_free: true,
            mapped_seq_id: None,
            is_prefix_cached: false,
            is_speculative: false,
        }
    );
}

#[test]
fn prefix_match_partial_prompt_gets_own_block() {
    let mut manager = BlockSpaceManager::new(8, 4, 8);
    let prompt: Vec<u32> = vec![1, 2, 3, 4, 5, 6];
    assert_eq!(manager.match_or_allocate_prefix(1, &prompt), Ok(0));
    assert_eq!(manager.get_sequence_blocks(1), Some(vec![0, 1]));
    let info = manager.get_block_inspect_info();
    assert!(info[0].is_prefix_cached);
    assert!(!info[1].is_prefix_cached);
    // Same first chunk, different tail: the first block is shared.
    let other: Vec<u32> = vec![1, 2, 3, 4, 9, 9, 9, 9];
    assert_eq!(manager.match_or_allocate_prefix(2, &other), Ok(1));
    assert_eq!(manager.get_sequence_blocks(2), Some(vec![0, 2]));
    assert_eq!(manager.prefix_cache_lookups, 2);
    assert_eq!(manager.prefix_cache_hits, 1);
}

#[test]
fn prefix_match_out_of_memory_is_reported() {
    let mut manager = BlockSpaceManager::new(1, 4, 8);
    let prompt: Vec<u32> = vec![1, 2, 3, 4, 5];
    assert_eq!(manager.match_or_allocate_prefix(1, &prompt), Err(MemoryError::OutOfMemory));
    // The sequence was registered; its table is still empty.
    assert_eq!(manager.get_sequence_blocks(1), Some(vec![]));
    assert_eq!(manager.free_blocks_count(), 0);
}

#[test]
fn export_reports_unknown_sequences_as_empty() {
    let mut manager = BlockSpaceManager::new(8, 4, 3);
    manager.register_sequence(1).unwrap();
    manager.append_tokens(1, 5).unwrap();
    let (flat, lens) = manager.export_cuda_block_tables(&[7, 1]);
    assert_eq!(flat, vec![-1, -1, -1, 0, 1, -1]);
    assert_eq!(lens, vec![0, 5]);
}

#[test]
fn admission_respects_the_per_sequence_limit() {
    let mut m = BlockSpaceManager::new(16, 16, 2);
    let p: Vec<u32> = (0..48).collect();
    assert_eq!(m.match_or_allocate_prefix(1, &p), Err(MemoryError::CapacityExceeded));
    assert_eq!(m.allocated_blocks_count(), 0);
    assert_eq!(m.get_sequence_blocks(1), None);
    assert_eq!(m.prefix_cache_lookups, 0);
    // Two full chunks and a partial one need three blocks too.
    let q: Vec<u32> = (0..33).collect();
    assert_eq!(m.match_or_allocate_prefix(1, &q), Err(MemoryError::CapacityExceeded));
    // Exactly two blocks fit.
    let r: Vec<u32> = (0..32).collect();
    assert_eq!(m.match_or_allocate_prefix(1, &r), Ok(0));
}

#[test]
fn append_after_fork_copies_the_shared_partial_block() {
    let mut m = BlockSpaceManager::new(10, 16, 4);
    m.register_sequence(1).unwrap();
    m.append_tokens(1, 20).unwrap();
    m.fork_sequence_cow(1, 2).unwrap();
    assert_eq!(m.get_sequence_blocks(2), Some(vec![0, 1]));
    assert_eq!(m.append_tokens(2, 1), Ok(()));
    assert_eq!(m.get_sequence_blocks(1), Some(vec![0, 1]));
    let child = m.get_sequence_blocks(2).unwrap();
    assert_eq!(child[0], 0);
    assert_ne!(child[1], 1);
    assert_eq!(m.allocated_blocks_count(), 3);
    let info = m.get_block_inspect_info();
    assert_eq!(info[0].ref_count, 2);
    assert_eq!(info[1].ref_count, 1);
    assert_eq!(info[child[1]].ref_count, 1);
    // The child's block is its own now: a further append copies nothing.
    assert_eq!(m.append_tokens(2, 1), Ok(()));
    assert_eq!(m.get_sequence_blocks(2), Some(child.clone()));
    // A full shared block is not copied: new tokens go to a new block.
    m.register_sequence(3).unwrap();
    m.append_tokens(3, 16).unwrap();
    m.fork_sequence_cow(3, 4).unwrap();
    let before = m.get_sequence_blocks(4).unwrap();
    assert_eq!(m.append_tokens(4, 1), Ok(()));
    let after = m.get_sequence_blocks(4).unwrap();
    assert_eq!(after[0], before[0]);
    assert_eq!(after.len(), 2);
}

#[test]
fn copy_on_write_fails_cleanly_without_free_blocks() {
    let mut m = BlockSpaceManager::new(2, 16, 4);
    m.register_sequence(1).unwrap();
    m.append_tokens(1, 20).unwrap();
    m.fork_sequence_cow(1, 2).unwrap();
    assert_eq!(m.free_blocks_count(), 0);
    assert_eq!(m.append_tokens(2, 1), Err(MemoryError::OutOfMemory));
    assert_eq!(m.get_sequence_blocks(2), Some(vec![0, 1]));
    assert_eq!(m.get_block_inspect_info()[1].ref_count, 2);
}
