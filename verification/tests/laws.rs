use nexuskv::engine::speculative::SpeculativeVerifier;
use nexuskv::memory::block_manager::BlockSpaceManager;

#[test]
fn allocated_and_free_counts_cover_the_pool() {
    let mut m = BlockSpaceManager::new(12, 4, 8);
    m.register_sequence(1).unwrap();
    m.append_tokens(1, 9).unwrap();
    m.match_or_allocate_prefix(2, &[1, 2, 3, 4, 5, 6, 7, 8, 9, 10]).unwrap();
    m.fork_sequence_cow(1, 3).unwrap();
    m.rollback_sequence(1, 2).unwrap();
    assert_eq!(m.allocated_blocks_count() + m.free_blocks_count(), 12);
    let referenced = m.get_block_inspect_info().iter().filter(|b| b.ref_count > 0).count();
    assert_eq!(m.allocated_blocks_count(), referenced);
}

#[test]
fn allocate_then_free_restores_the_pool() {
    let mut m = BlockSpaceManager::new(5, 4, 8);
    m.allocate_block().unwrap();
    let before: Vec<usize> = m.get_block_inspect_info().iter().map(|b| b.ref_count).collect();
    let free_before = m.free_blocks_count();
    let b = m.allocate_block().unwrap();
    m.free_block(b).unwrap();
    let after: Vec<usize> = m.get_block_inspect_info().iter().map(|b| b.ref_count).collect();
    assert_eq!(before, after);
    assert_eq!(m.free_blocks_count(), free_before);
    // The same block comes back next.
    assert_eq!(m.allocate_block(), Ok(b));
}

#[test]
fn fork_then_free_child_restores_everything() {
    let mut m = BlockSpaceManager::new(8, 4, 8);
    m.register_sequence(1).unwrap();
    m.append_tokens(1, 10).unwrap();
    let before = m.get_block_inspect_info();
    m.fork_sequence_cow(1, 2).unwrap();
    m.free_sequence(2).unwrap();
    assert_eq!(m.get_block_inspect_info(), before);
    assert_eq!(m.get_sequence_blocks(2), None);
    assert_eq!(m.get_sequence_blocks(1), Some(vec![0, 1, 2]));
}

#[test]
fn readmitted_prompt_shares_every_full_chunk() {
    let mut m = BlockSpaceManager::new(16, 4, 8);
    let prompt: Vec<u32> = (0..14).collect();
    assert_eq!(m.match_or_allocate_prefix(1, &prompt), Ok(0));
    let first = m.get_sequence_blocks(1).unwrap();
    let free_before = m.free_blocks_count();
    assert_eq!(m.match_or_allocate_prefix(2, &prompt), Ok(3));
    let second = m.get_sequence_blocks(2).unwrap();
    assert_eq!(&second[..3], &first[..3]);
    // Only the partial chunk took a fresh block.
    assert_eq!(m.free_blocks_count(), free_before - 1);
    assert_ne!(second[3], first[3]);
}

#[test]
fn accepted_tokens_are_the_target_prefix() {
    let mut m = BlockSpaceManager::new(8, 4, 8);
    m.register_sequence(1).unwrap();
    let mut v = SpeculativeVerifier::new();
    let r = v.verify_and_rollback(&mut m, 1, &[5, 6, 7], &[8, 6, 7], 0).unwrap();
    assert_eq!(r.accepted_tokens, vec![8]);
    assert_eq!(r.num_accepted, 1);
    assert_eq!(r.num_rejected, 3);
    let r = v.verify_and_rollback(&mut m, 1, &[], &[], 0).unwrap();
    assert!(r.accepted_tokens.is_empty());
    assert_eq!(r.num_rejected, 0);
}

#[test]
fn freed_prefix_blocks_are_not_shared() {
    // The prefix index keeps its entries after the blocks behind them are
    // freed, but a freed block is never shared: admitting the same prompt
    // again claims a fresh block and records it in place of the stale entry.
    let mut m = BlockSpaceManager::new(4, 4, 8);
    let prompt: Vec<u32> = vec![1, 2, 3, 4];
    assert_eq!(m.match_or_allocate_prefix(1, &prompt), Ok(0));
    m.free_sequence(1).unwrap();
    assert_eq!(m.free_blocks_count(), 4);
    assert_eq!(m.match_or_allocate_prefix(2, &prompt), Ok(0));
    assert_eq!(m.get_sequence_blocks(2), Some(vec![0]));
    assert_eq!(m.free_blocks_count(), 3);
    assert_eq!(m.allocated_blocks_count(), 1);
    let info = m.get_block_inspect_info();
    assert_eq!(info[0].ref_count, 1);
    assert!(!info[0].is_free);
    // The refreshed entry is shared by the next admission.
    assert_eq!(m.match_or_allocate_prefix(3, &prompt), Ok(1));
    assert_eq!(m.get_sequence_blocks(3), Some(vec![0]));
    m.free_sequence(2).unwrap();
    m.free_sequence(3).unwrap();
    assert_eq!(m.free_blocks_count(), 4);
}

#[test]
fn freed_then_readmitted_prompt_takes_live_blocks() {
    let mut m = BlockSpaceManager::new(16, 16, 8);
    let p: Vec<u32> = (0..32).collect();
    assert_eq!(m.match_or_allocate_prefix(1, &p), Ok(0));
    m.free_sequence(1).unwrap();
    assert_eq!(m.allocated_blocks_count(), 0);
    assert!(m.match_or_allocate_prefix(2, &p).is_ok());
    assert_eq!(m.allocated_blocks_count(), 2);
    assert_eq!(m.free_blocks_count(), 14);
    let info = m.get_block_inspect_info();
    assert!(m.get_sequence_blocks(2).unwrap().iter().all(|&b| !info[b].is_free));
}

#[test]
fn common_prefix_is_shared() {
    let mut m = BlockSpaceManager::new(16, 4, 8);
    let system: Vec<u32> = (0..8).collect();
    let mut a = system.clone();
    a.extend([100, 101, 102, 103, 104]);
    let mut b = system.clone();
    b.extend([200, 201, 202, 203]);
    assert_eq!(m.match_or_allocate_prefix(1, &a), Ok(0));
    assert_eq!(m.match_or_allocate_prefix(2, &b), Ok(2));
    let ta = m.get_sequence_blocks(1).unwrap();
    let tb = m.get_sequence_blocks(2).unwrap();
    assert_eq!(&tb[..2], &ta[..2]);
    assert_ne!(tb[2], ta[2]);
    let info = m.get_block_inspect_info();
    assert_eq!(info[ta[0]].ref_count, 2);
    assert_eq!(info[ta[1]].ref_count, 2);
}

#[test]
fn admit_then_free_gives_every_block_back() {
    let mut m = BlockSpaceManager::new(10, 4, 8);
    let shared_prompt: Vec<u32> = (0..8).collect();
    m.match_or_allocate_prefix(1, &shared_prompt).unwrap();
    let refs_before: Vec<usize> = m.get_block_inspect_info().iter().map(|b| b.ref_count).collect();
    let free_before = m.free_blocks_count();
    // Shares the two chunks of sequence 1 and takes three fresh blocks.
    let prompt: Vec<u32> = (0..18).collect();
    assert_eq!(m.match_or_allocate_prefix(2, &prompt), Ok(2));
    assert_eq!(m.free_blocks_count(), free_before - 3);
    m.free_sequence(2).unwrap();
    let refs_after: Vec<usize> = m.get_block_inspect_info().iter().map(|b| b.ref_count).collect();
    assert_eq!(refs_after, refs_before);
    assert_eq!(m.free_blocks_count(), free_before);
    assert_eq!(m.get_sequence_blocks(2), None);
}

#[test]
fn append_then_rollback_is_undone() {
    let mut m = BlockSpaceManager::new(10, 4, 8);
    m.register_sequence(7).unwrap();
    m.append_tokens(7, 5).unwrap();
    let blocks_before = m.get_sequence_blocks(7);
    let refs_before: Vec<usize> = m.get_block_inspect_info().iter().map(|b| b.ref_count).collect();
    let free_before = m.free_blocks_count();
    m.append_tokens(7, 7).unwrap();
    assert_eq!(m.free_blocks_count(), free_before - 1);
    m.rollback_sequence(7, 5).unwrap();
    assert_eq!(m.get_sequence_blocks(7), blocks_before);
    let refs_after: Vec<usize> = m.get_block_inspect_info().iter().map(|b| b.ref_count).collect();
    assert_eq!(refs_after, refs_before);
    assert_eq!(m.free_blocks_count(), free_before);
    // The free stack is back in order: the next block handed out is block 2.
    assert_eq!(m.allocate_block(), Ok(2));
}

#[test]
fn reused_block_is_not_shared_through_a_stale_entry() {
    // Block 0 caches prompt A's chunk, is freed, then is reused for prompt
    // B's chunk. The stale entry for A must not hand out B's block.
    let mut m = BlockSpaceManager::new(4, 4, 8);
    let a: Vec<u32> = vec![1, 2, 3, 4];
    let b: Vec<u32> = vec![5, 6, 7, 8];
    assert_eq!(m.match_or_allocate_prefix(1, &a), Ok(0));
    m.free_sequence(1).unwrap();
    assert_eq!(m.match_or_allocate_prefix(2, &b), Ok(0));
    assert_eq!(m.get_sequence_blocks(2), Some(vec![0]));
    assert_eq!(m.match_or_allocate_prefix(3, &a), Ok(0));
    assert_ne!(m.get_sequence_blocks(3), Some(vec![0]));
    assert_eq!(m.get_block_inspect_info()[0].ref_count, 1);
    // B's entry still names block 0 and is shared.
    assert_eq!(m.match_or_allocate_prefix(4, &b), Ok(1));
    assert_eq!(m.get_sequence_blocks(4), Some(vec![0]));
}

#[test]
fn admitted_blocks_are_distinct() {
    let mut m = BlockSpaceManager::new(8, 4, 8);
    let p: Vec<u32> = vec![1, 2, 3, 4, 1, 2, 3, 4, 9];
    assert_eq!(m.match_or_allocate_prefix(1, &p), Ok(0));
    assert_eq!(m.match_or_allocate_prefix(2, &p), Ok(2));
    for s in [1, 2] {
        let t = m.get_sequence_blocks(s).unwrap();
        let mut sorted = t.clone();
        sorted.sort();
        sorted.dedup();
        assert_eq!(sorted.len(), t.len());
    }
}

#[test]
fn held_prefix_is_shared_after_other_calls() {
    let mut m = BlockSpaceManager::new(32, 4, 8);
    let p: Vec<u32> = (0..13).collect();
    assert_eq!(m.match_or_allocate_prefix(1, &p), Ok(0));
    let held = m.get_sequence_blocks(1).unwrap();
    // Unrelated traffic: another prompt, appends, a fork, a rollback, frees.
    let other: Vec<u32> = (100..109).collect();
    assert_eq!(m.match_or_allocate_prefix(2, &other), Ok(0));
    m.append_tokens(2, 6).unwrap();
    m.fork_sequence_cow(2, 3).unwrap();
    m.rollback_sequence(2, 4).unwrap();
    m.free_sequence(3).unwrap();
    m.append_tokens(1, 2).unwrap();
    m.free_sequence(2).unwrap();
    let refs_before: Vec<usize> = m.get_block_inspect_info().iter().map(|b| b.ref_count).collect();
    // `q` shares the first two chunks of `p`.
    let mut q: Vec<u32> = (0..8).collect();
    q.extend([50, 51, 52, 53, 54]);
    let k = m.match_or_allocate_prefix(4, &q).unwrap();
    assert!(k >= 2);
    let t = m.get_sequence_blocks(4).unwrap();
    assert_eq!(&t[..2], &held[..2]);
    let info = m.get_block_inspect_info();
    assert_eq!(info[held[0]].ref_count, refs_before[held[0]] + 1);
    assert_eq!(info[held[1]].ref_count, refs_before[held[1]] + 1);
}

#[test]
fn free_flag_matches_reference_counts() {
    let mut m = BlockSpaceManager::new(8, 4, 8);
    let p: Vec<u32> = (0..9).collect();
    m.match_or_allocate_prefix(1, &p).unwrap();
    m.match_or_allocate_prefix(2, &p).unwrap();
    m.free_sequence(1).unwrap();
    let b = m.get_sequence_blocks(2).unwrap()[0];
    m.free_block(b).unwrap();
    let info = m.get_block_inspect_info();
    assert!(info.iter().all(|i| i.is_free == (i.ref_count == 0)));
    assert_eq!(m.free_blocks_count(), info.iter().filter(|i| i.is_free).count());
    assert_eq!(m.allocated_blocks_count(), info.iter().filter(|i| i.ref_count > 0).count());
}

#[test]
fn two_appends_equal_one() {
    let build = || {
        let mut m = BlockSpaceManager::new(16, 4, 8);
        m.match_or_allocate_prefix(1, &[1, 2, 3, 4, 5, 6]).unwrap();
        m.fork_sequence_cow(1, 2).unwrap();
        m
    };
    let mut m1 = build();
    m1.append_tokens(1, 3).unwrap();
    m1.append_tokens(1, 7).unwrap();
    let mut m2 = build();
    m2.append_tokens(1, 10).unwrap();
    assert_eq!(m1.get_sequence_blocks(1), m2.get_sequence_blocks(1));
    assert_eq!(m1.export_cuda_block_tables(&[1]), m2.export_cuda_block_tables(&[1]));
    assert_eq!(m1.free_blocks_count(), m2.free_blocks_count());
    assert_eq!(m1.get_block_inspect_info(), m2.get_block_inspect_info());
}

#[test]
fn token_count_follows_appends_and_rollbacks() {
    let mut m = BlockSpaceManager::new(8, 4, 8);
    assert_eq!(m.sequence_token_count(1), None);
    m.register_sequence(1).unwrap();
    m.append_tokens(1, 6).unwrap();
    assert_eq!(m.sequence_token_count(1), Some(6));
    m.rollback_sequence(1, 2).unwrap();
    assert_eq!(m.sequence_token_count(1), Some(2));
}

#[test]
fn live_entry_past_a_stale_one_is_kept() {
    let mut m = BlockSpaceManager::new(8, 4, 8);
    let p: Vec<u32> = vec![1, 2, 3, 4, 5, 6, 7, 8];
    assert_eq!(m.match_or_allocate_prefix(1, &p), Ok(0));
    assert_eq!(m.get_sequence_blocks(1), Some(vec![0, 1]));
    // The first chunk's block loses its only reference: its entry goes stale.
    m.free_block(0).unwrap();
    // The first chunk misses and takes block 0 again; the second chunk's
    // entry still names block 1, which stays as it was.
    assert_eq!(m.match_or_allocate_prefix(2, &p), Ok(0));
    assert_eq!(m.get_sequence_blocks(2), Some(vec![0, 2]));
    assert_eq!(m.get_block_inspect_info()[1].ref_count, 1);
    // Both entries are live again, so a third admission shares both blocks.
    assert_eq!(m.match_or_allocate_prefix(3, &p), Ok(2));
    assert_eq!(m.get_sequence_blocks(3), Some(vec![0, 1]));
    let info = m.get_block_inspect_info();
    assert_eq!(info[0].ref_count, 2);
    assert_eq!(info[1].ref_count, 2);
}
