use nexuskv::engine::scheduler::{
    BatchType, ContinuousScheduler, FinishReason, SchedulerError, Sequence, SequenceStatus,
};
use nexuskv::engine::speculative::{SpeculativeError, SpeculativeVerifier};
use nexuskv::memory::block_manager::{BlockSpaceManager, MemoryError};

#[test]
fn test_continuous_scheduling_lifecycle() {
    let mut block_mgr = BlockSpaceManager::new(64, 16, 8);
    let mut scheduler = ContinuousScheduler::new(4);

    let seq1 = Sequence::new(1, vec![10, 20, 30], 2);
    scheduler.submit_sequence(seq1);

    let batch = scheduler.schedule_iteration(&mut block_mgr).unwrap().unwrap();
    assert_eq!(batch.batch_type, BatchType::Prefill);
    assert_eq!(batch.sequence_ids, vec![1]);
    assert_eq!(scheduler.running_count(), 1);

    scheduler.step_sequence(&mut block_mgr, 1, 101, false).unwrap();
    let batch2 = scheduler.schedule_iteration(&mut block_mgr).unwrap().unwrap();
    assert_eq!(batch2.batch_type, BatchType::Decode);

    scheduler.step_sequence(&mut block_mgr, 1, 102, false).unwrap();
    assert_eq!(scheduler.running_count(), 0);
    assert_eq!(scheduler.finished_count(), 1);
    assert_eq!(block_mgr.allocated_blocks_count(), 0);
}

#[test]
fn test_sequence_abort_reclaims_blocks() {
    let mut block_mgr = BlockSpaceManager::new(64, 16, 8);
    let mut scheduler = ContinuousScheduler::new(4);

    let seq = Sequence::new(42, vec![1, 2, 3, 4, 5], 10);
    scheduler.submit_sequence(seq);

    let _ = scheduler.schedule_iteration(&mut block_mgr).unwrap().unwrap();
    assert_eq!(scheduler.running_count(), 1);
    assert!(block_mgr.allocated_blocks_count() > 0);

    scheduler.abort_sequence(&mut block_mgr, 42).unwrap();
    assert_eq!(scheduler.running_count(), 0);
    assert_eq!(scheduler.finished_count(), 1);
    assert_eq!(block_mgr.allocated_blocks_count(), 0);
}

#[test]
fn test_speculative_verification_and_rollback() {
    let mut block_mgr = BlockSpaceManager::new(32, 16, 4);
    block_mgr.register_sequence(1).unwrap();
    block_mgr.append_tokens(1, 20).unwrap();
    assert_eq!(block_mgr.allocated_blocks_count(), 2);

    let mut verifier = SpeculativeVerifier::new();

    let draft_tokens = vec![100, 101, 102, 103];
    let target_tokens = vec![100, 101, 999, 103];

    let result = verifier
        .verify_and_rollback(&mut block_mgr, 1, &draft_tokens, &target_tokens, 16)
        .unwrap();

    assert_eq!(result.accepted_tokens, vec![100, 101, 999]);
    assert_eq!(result.num_accepted, 3);
    assert_eq!(result.num_rejected, 2);

    assert_eq!(block_mgr.allocated_blocks_count(), 2);
}

#[test]
fn speculative_full_agreement_and_rollback_frees_block() {
    let mut block_mgr = BlockSpaceManager::new(32, 4, 8);
    block_mgr.register_sequence(1).unwrap();
    block_mgr.append_tokens(1, 9).unwrap();
    assert_eq!(block_mgr.allocated_blocks_count(), 3);
    let mut verifier = SpeculativeVerifier::new();
    let result = verifier
        .verify_and_rollback(&mut block_mgr, 1, &[5, 6], &[5, 6], 4)
        .unwrap();
    assert_eq!(result.accepted_tokens, vec![5, 6]);
    assert_eq!(result.num_accepted, 2);
    assert_eq!(result.num_rejected, 0);
    // 4 + 2 = 6 tokens need 2 blocks of 4: the third goes back.
    assert_eq!(block_mgr.allocated_blocks_count(), 2);
    assert_eq!(verifier.total_proposed, 2);
    assert_eq!(verifier.total_accepted, 2);
}

#[test]
fn speculative_errors() {
    let mut block_mgr = BlockSpaceManager::new(8, 4, 8);
    let mut verifier = SpeculativeVerifier::new();
    assert_eq!(
        verifier.verify_and_rollback(&mut block_mgr, 1, &[1, 2], &[1], 0).unwrap_err(),
        SpeculativeError::LengthMismatch
    );
    assert_eq!(verifier.total_proposed, 0);
    assert_eq!(
        verifier.verify_and_rollback(&mut block_mgr, 9, &[1], &[2], 0).unwrap_err(),
        SpeculativeError::Memory(MemoryError::SequenceNotFound(9))
    );
    // The totals were already counted when the rollback failed.
    assert_eq!(verifier.total_proposed, 1);
    assert_eq!(verifier.total_accepted, 1);
    verifier.reset_metrics();
    assert_eq!(verifier.total_proposed, 0);
    assert_eq!(verifier.total_accepted, 0);
}

#[test]
fn scheduler_stop_token_finishes_and_reclaims() {
    let mut block_mgr = BlockSpaceManager::new(16, 4, 8);
    let mut scheduler = ContinuousScheduler::new(2);
    scheduler.submit_sequence(Sequence::new(7, vec![1, 2, 3, 4, 5], 100));
    scheduler.schedule_iteration(&mut block_mgr).unwrap();
    scheduler.step_sequence(&mut block_mgr, 7, 9, true).unwrap();
    let s = scheduler.get_sequence(7).unwrap();
    assert_eq!(s.status, SequenceStatus::Finished(FinishReason::StopTokenEncountered));
    assert_eq!(s.output_tokens, vec![9]);
    assert!(s.ttft().is_some());
    assert!(s.itl().is_none());
    assert_eq!(block_mgr.allocated_blocks_count(), 0);
    assert_eq!(
        scheduler.step_sequence(&mut block_mgr, 7, 1, false),
        Err(SchedulerError::SequenceNotFound(7))
    );
    assert_eq!(
        scheduler.abort_sequence(&mut block_mgr, 7),
        Err(SchedulerError::SequenceAlreadyFinished(7))
    );
    assert_eq!(
        scheduler.abort_sequence(&mut block_mgr, 8),
        Err(SchedulerError::SequenceNotFound(8))
    );
}

#[test]
fn scheduler_decode_batch_lists_every_running_sequence() {
    let mut block_mgr = BlockSpaceManager::new(64, 4, 8);
    let mut scheduler = ContinuousScheduler::new(4);
    scheduler.submit_sequence(Sequence::new(1, vec![1, 2, 3], 10));
    scheduler.submit_sequence(Sequence::new(2, vec![4, 5], 10));
    let b1 = scheduler.schedule_iteration(&mut block_mgr).unwrap().unwrap();
    assert_eq!(b1.batch_type, BatchType::Prefill);
    assert_eq!(b1.token_counts, vec![3]);
    // Running sequences take priority: the next plan is a decode of sequence 1 only.
    let b2 = scheduler.schedule_iteration(&mut block_mgr).unwrap().unwrap();
    assert_eq!(b2.batch_type, BatchType::Decode);
    assert_eq!(b2.sequence_ids, vec![1]);
    assert_eq!(b2.token_counts, vec![3]);
    assert_eq!(scheduler.waiting_count(), 1);
    let mut ids = scheduler.active_sequence_ids();
    ids.sort();
    assert_eq!(ids, vec![1]);
}

#[test]
fn scheduler_aborts_waiting_sequence() {
    let mut block_mgr = BlockSpaceManager::new(8, 4, 8);
    let mut scheduler = ContinuousScheduler::new(1);
    scheduler.submit_sequence(Sequence::new(3, vec![1], 5));
    scheduler.abort_sequence(&mut block_mgr, 3).unwrap();
    assert_eq!(scheduler.waiting_count(), 0);
    let s = scheduler.get_sequence(3).unwrap();
    assert_eq!(s.status, SequenceStatus::Finished(FinishReason::Aborted));
    assert!(scheduler.schedule_iteration(&mut block_mgr).unwrap().is_none());
}

#[test]
fn scheduler_failed_admission_requeues() {
    let mut block_mgr = BlockSpaceManager::new(1, 4, 8);
    let mut scheduler = ContinuousScheduler::new(4);
    scheduler.submit_sequence(Sequence::new(5, vec![1, 2, 3, 4, 5], 5));
    assert_eq!(
        scheduler.schedule_iteration(&mut block_mgr).unwrap_err(),
        SchedulerError::Memory(MemoryError::OutOfMemory)
    );
    assert_eq!(scheduler.waiting_count(), 1);
    assert_eq!(scheduler.running_count(), 0);
    assert_eq!(block_mgr.get_sequence_blocks(5), None);
}

#[test]
fn sequence_token_counts() {
    let s = Sequence::new(1, vec![1, 2, 3], 4);
    assert_eq!(s.total_tokens(), 3);
    assert!(!s.is_finished());
    assert!(s.ttft().is_none());
    assert!(s.itl().is_none());
}
