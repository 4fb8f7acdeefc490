//! Speculative draft verification with page-table rollback.

use vstd::prelude::*;
use crate::memory::block_manager::{BlockSpaceManager, MemoryError};

verus! {

/// Errors raised by speculative verification.
#[derive(Debug, Clone, Copy, PartialEq, Eq, Structural)]
pub enum SpeculativeError {
    /// The rollback failed in the block manager.
    Memory(MemoryError),
    /// Draft and target token lists differ in length.
    LengthMismatch,
    /// A draft tree node id is out of range.
    InvalidNodeId(usize),
}

/// Outcome of verifying one draft.
#[derive(Debug, Clone)]
pub struct VerificationResult {
    /// The agreeing draft prefix, followed by the target's correction token.
    pub accepted_tokens: Vec<u32>,
    pub num_accepted: usize,
    pub num_rejected: usize,
}

/// Index of the first position, from `i` on, where `draft` and `target` differ
/// (their common length when they agree throughout).
pub open spec fn divergence_from(draft: Seq<u32>, target: Seq<u32>, i: nat) -> nat
    decreases draft.len() - i,
{
    if i < draft.len() && i < target.len() && draft[i as int] == target[i as int] {
        divergence_from(draft, target, i + 1)
    } else {
        i
    }
}

/// Index of the first position where `draft` and `target` differ.
pub open spec fn divergence(draft: Seq<u32>, target: Seq<u32>) -> nat {
    divergence_from(draft, target, 0)
}

/// Tokens accepted from a draft: the agreeing prefix, plus the target's token
/// at the first divergence, if any.
pub open spec fn accepted_tokens(draft: Seq<u32>, target: Seq<u32>) -> Seq<u32> {
    let d = divergence(draft, target);
    if d < draft.len() {
        draft.take(d as int).push(target[d as int])
    } else {
        draft
    }
}

proof fn lemma_divergence_from(draft: Seq<u32>, target: Seq<u32>, i: nat)
    requires
        draft.len() == target.len(),
        i <= draft.len(),
    ensures
        i <= divergence_from(draft, target, i) <= draft.len(),
        forall|j: int|
            i <= j < divergence_from(draft, target, i) ==> #[trigger] draft[j] == target[j],
        divergence_from(draft, target, i) < draft.len() ==> draft[divergence_from(
            draft,
            target,
            i,
        ) as int] != target[divergence_from(draft, target, i) as int],
    decreases draft.len() - i,
{
    if i < draft.len() && draft[i as int] == target[i as int] {
        lemma_divergence_from(draft, target, i + 1);
    }
}

/// Facts about the divergence point of equal-length token lists.
pub proof fn lemma_divergence(draft: Seq<u32>, target: Seq<u32>)
    requires
        draft.len() == target.len(),
    ensures
        divergence(draft, target) <= draft.len(),
        forall|j: int| 0 <= j < divergence(draft, target) ==> #[trigger] draft[j] == target[j],
        divergence(draft, target) < draft.len() ==> draft[divergence(draft, target) as int]
            != target[divergence(draft, target) as int],
{
    lemma_divergence_from(draft, target, 0);
}

/// Every accepted token is the target model's token at that position: the
/// accepted list is the target's prefix of the same length, one longer than
/// the agreeing run when the draft diverges.
pub proof fn law_accepted_tokens_follow_target(draft: Seq<u32>, target: Seq<u32>)
    requires
        draft.len() == target.len(),
    ensures
        accepted_tokens(draft, target) == target.take(accepted_tokens(draft, target).len() as int),
        accepted_tokens(draft, target).len() == if divergence(draft, target) < draft.len() {
            divergence(draft, target) + 1
        } else {
            draft.len() as nat
        },
{
    lemma_divergence(draft, target);
    let d = divergence(draft, target);
    if d < draft.len() {
        assert(accepted_tokens(draft, target) =~= target.take(d as int + 1));
    } else {
        assert(draft =~= target.take(draft.len() as int));
    }
}

/// Running acceptance statistics of a speculative decoder.
pub struct SpeculativeVerifier {
    pub total_proposed: usize,
    pub total_accepted: usize,
}

impl SpeculativeVerifier {
    /// A verifier with no samples.
    pub fn new() -> (v: Self)
        ensures
            v.total_proposed == 0,
            v.total_accepted == 0,
    {
        SpeculativeVerifier { total_proposed: 0, total_accepted: 0 }
    }

    /// Verifies `draft_tokens` against `target_predicted_tokens`: accepts the
    /// agreeing prefix plus the target's correction at the first divergence,
    /// updates the running totals, and rolls the sequence's page table back to
    /// `baseline_token_length` plus the accepted tokens.
    pub fn verify_and_rollback(
        &mut self,
        block_manager: &mut BlockSpaceManager,
        seq_id: usize,
        draft_tokens: &[u32],
        target_predicted_tokens: &[u32],
        baseline_token_length: usize,
    ) -> (r: Result<VerificationResult, SpeculativeError>)
        requires
            old(block_manager).wf(),
            draft_tokens@.len() == target_predicted_tokens@.len() ==> {
                let n = accepted_tokens(draft_tokens@, target_predicted_tokens@).len();
                let t = baseline_token_length + n;
                &&& old(self).total_proposed + draft_tokens@.len() <= usize::MAX
                &&& old(self).total_accepted + n <= usize::MAX
                &&& t <= usize::MAX
                &&& t > 0 ==> old(block_manager)@.block_size > 0 && t + old(block_manager)@.block_size
                    - 1 <= usize::MAX
            },
        ensures
            final(block_manager).wf(),
            draft_tokens@.len() != target_predicted_tokens@.len() ==> {
                &&& r == Err::<VerificationResult, SpeculativeError>(SpeculativeError::LengthMismatch)
                &&& final(self).total_proposed == old(self).total_proposed
                &&& final(self).total_accepted == old(self).total_accepted
                &&& final(block_manager)@ == old(block_manager)@
            },
            draft_tokens@.len() == target_predicted_tokens@.len() ==> {
                let acc = accepted_tokens(draft_tokens@, target_predicted_tokens@);
                let d = divergence(draft_tokens@, target_predicted_tokens@);
                let t = (baseline_token_length + acc.len()) as usize;
                let (v2, mr) = old(block_manager)@.rollback(seq_id, t);
                &&& final(self).total_proposed == old(self).total_proposed + draft_tokens@.len()
                &&& final(self).total_accepted == old(self).total_accepted + acc.len()
                &&& final(block_manager)@ == v2
                &&& match mr {
                    Ok(()) => r matches Ok(res) && res.accepted_tokens@ == acc && res.num_accepted
                        == acc.len() && res.num_rejected == draft_tokens@.len() - d,
                    Err(e) => r == Err::<VerificationResult, SpeculativeError>(SpeculativeError::Memory(e)),
                }
            },
    {
        if draft_tokens.len() != target_predicted_tokens.len() {
            return Err(SpeculativeError::LengthMismatch);
        }
        let ghost draft = draft_tokens@;
        let ghost target = target_predicted_tokens@;
        proof {
            lemma_divergence(draft, target);
        }
        let mut accepted: Vec<u32> = Vec::new();
        let mut reject_idx = draft_tokens.len();
        let mut i: usize = 0;
        while i < draft_tokens.len()
            invariant_except_break
                draft == draft_tokens@,
                target == target_predicted_tokens@,
                draft.len() == target.len(),
                divergence(draft, target) <= draft.len(),
                forall|j: int| 0 <= j < divergence(draft, target) ==> #[trigger] draft[j] == target[j],
                divergence(draft, target) < draft.len() ==> draft[divergence(draft, target) as int]
                    != target[divergence(draft, target) as int],
                0 <= i <= draft.len(),
                reject_idx == draft.len(),
                accepted@ == draft.take(i as int),
                i <= divergence(draft, target),
            ensures
                reject_idx == divergence(draft, target),
                accepted@ == accepted_tokens(draft, target),
            decreases draft.len() - i,
        {
            let d = draft_tokens[i];
            let t = target_predicted_tokens[i];
            if d == t {
                accepted.push(d);
                i = i + 1;
                assert(accepted@ =~= draft.take(i as int));
                proof {
                    if i == draft.len() {
                        assert(draft.take(i as int) =~= draft);
                    }
                }
            } else {
                reject_idx = i;
                accepted.push(t);
                break;
            }
        }
        let num_accepted = accepted.len();
        let num_rejected = draft_tokens.len() - reject_idx;
        self.total_proposed = self.total_proposed + draft_tokens.len();
        self.total_accepted = self.total_accepted + num_accepted;
        let final_token_count = baseline_token_length + num_accepted;
        match block_manager.rollback_sequence(seq_id, final_token_count) {
            Err(e) => Err(SpeculativeError::Memory(e)),
            Ok(()) => Ok(
                VerificationResult { accepted_tokens: accepted, num_accepted, num_rejected },
            ),
        }
    }

    /// Clears the running totals.
    pub fn reset_metrics(&mut self)
        ensures
            final(self).total_proposed == 0,
            final(self).total_accepted == 0,
    {
        self.total_proposed = 0;
        self.total_accepted = 0;
    }
}

} // verus!
