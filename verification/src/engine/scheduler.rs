//! Continuous-batching scheduler: a waiting queue, a running pool and a
//! finished pool, admitting prompts through the block manager.

use vstd::prelude::*;
use std::collections::{HashMap, VecDeque};
use vstd::std_specs::iter::IteratorSpec;
use std::time::{Duration, Instant};
use crate::memory::block_manager::{BlockSpaceManager, MemoryError};
use crate::memory::model::can_admit;

verus! {

broadcast use vstd::std_specs::hash::group_hash_axioms;

#[verifier::external_type_specification]
#[verifier::external_body]
pub struct ExInstant(std::time::Instant);

/// Cloning an `Instant` (`<std::time::Instant as Clone>::clone`) yields the
/// same instant: `Instant` is `Copy`, and its clone is a copy.
pub assume_specification[ <std::time::Instant as core::clone::Clone>::clone ](t: &Instant) -> (r: Instant)
    ensures
        r == *t,
;

/// Reads the monotonic clock (`std::time::Instant::now`). Nothing is stated
/// of the reading: it depends on the time of the call.
#[verifier::external_body]
fn clock_now() -> (t: Instant) {
    Instant::now()
}

/// The time from `earlier` to `later`, as `Instant::duration_since` computes it.
pub uninterp spec fn elapsed_time(later: Instant, earlier: Instant) -> Duration;

/// `d` divided by `n`, as `<Duration as Div<u32>>::div` computes it.
pub uninterp spec fn duration_divided(d: Duration, n: u32) -> Duration;

/// Time from `earlier` to `later` (`std::time::Instant::duration_since`,
/// zero when `later` comes first). The result is named: it depends on the
/// two instants alone.
#[verifier::external_body]
fn elapsed_between(later: Instant, earlier: Instant) -> (d: Duration)
    ensures
        d == elapsed_time(later, earlier),
{
    later.duration_since(earlier)
}

/// `d / n` (`<std::time::Duration as Div<u32>>::div`), which panics when `n`
/// is 0. The result is named: it depends on `d` and `n` alone.
#[verifier::external_body]
fn divide_duration(d: Duration, n: u32) -> (q: Duration)
    requires
        n != 0,
    ensures
        q == duration_divided(d, n),
{
    d / n
}

/// Errors raised by the scheduler.
#[derive(Debug, Clone, Copy, PartialEq, Eq, Structural)]
pub enum SchedulerError {
    /// The block manager refused an allocation or a release.
    Memory(MemoryError),
    /// No running (or, for aborts, waiting) sequence has this id.
    SequenceNotFound(usize),
    /// The sequence has already finished.
    SequenceAlreadyFinished(usize),
}

/// Why a sequence finished.
#[derive(Debug, Clone, Copy, PartialEq, Eq, Structural)]
pub enum FinishReason {
    MaxTokensReached,
    StopTokenEncountered,
    Aborted,
}

/// Lifecycle state of a sequence.
#[derive(Debug, Clone, Copy, PartialEq, Eq, Structural)]
pub enum SequenceStatus {
    Waiting,
    Running,
    Finished(FinishReason),
}

/// Kind of work in a scheduled batch.
#[derive(Debug, Clone, Copy, PartialEq, Eq, Structural)]
pub enum BatchType {
    Prefill,
    Decode,
}

/// One scheduling decision: the sequences to run and their token counts.
#[derive(Debug, Clone)]
pub struct ScheduledBatch {
    pub batch_type: BatchType,
    pub sequence_ids: Vec<usize>,
    pub token_counts: Vec<usize>,
}

/// A generation request and its progress.
#[derive(Debug, Clone)]
pub struct Sequence {
    pub id: usize,
    pub prompt_tokens: Vec<u32>,
    pub output_tokens: Vec<u32>,
    pub max_tokens: usize,
    pub status: SequenceStatus,
    pub created_at: Instant,
    pub first_token_at: Option<Instant>,
    pub last_token_at: Option<Instant>,
}

/// Prompt plus generated tokens of `s`.
pub open spec fn total_tokens_of(s: Sequence) -> nat {
    s.prompt_tokens@.len() + s.output_tokens@.len()
}

impl Sequence {
    /// A waiting sequence with no output, created now.
    pub fn new(id: usize, prompt_tokens: Vec<u32>, max_tokens: usize) -> (s: Self)
        ensures
            s.id == id,
            s.prompt_tokens@ == prompt_tokens@,
            s.output_tokens@ == Seq::<u32>::empty(),
            s.max_tokens == max_tokens,
            s.status == SequenceStatus::Waiting,
            s.first_token_at is None,
            s.last_token_at is None,
    {
        Sequence {
            id,
            prompt_tokens,
            output_tokens: Vec::new(),
            max_tokens,
            status: SequenceStatus::Waiting,
            created_at: clock_now(),
            first_token_at: None,
            last_token_at: None,
        }
    }

    /// Prompt plus generated tokens.
    pub fn total_tokens(&self) -> (r: usize)
        requires
            total_tokens_of(*self) <= usize::MAX,
        ensures
            r == total_tokens_of(*self),
    {
        self.prompt_tokens.len() + self.output_tokens.len()
    }

    /// Whether the sequence has finished.
    pub fn is_finished(&self) -> (r: bool)
        ensures
            r == (self.status is Finished),
    {
        match self.status {
            SequenceStatus::Finished(_) => true,
            _ => false,
        }
    }

    /// Time to first token, once there is one.
    pub fn ttft(&self) -> (r: Option<Duration>)
        ensures
            match self.first_token_at {
                Some(t) => r == Some(elapsed_time(t, self.created_at)),
                None => r is None,
            },
    {
        match self.first_token_at {
            Some(t) => Some(elapsed_between(t, self.created_at)),
            None => None,
        }
    }

    /// Mean time between generated tokens, once there are two.
    pub fn itl(&self) -> (r: Option<Duration>)
        requires
            self.first_token_at is Some && self.last_token_at is Some && self.output_tokens@.len() > 1
                ==> (self.output_tokens@.len() - 1) as u32 != 0,
        ensures
            match (self.first_token_at, self.last_token_at) {
                (Some(first), Some(last)) => if self.output_tokens@.len() > 1 {
                    r == Some(
                        duration_divided(
                            elapsed_time(last, first),
                            (self.output_tokens@.len() - 1) as u32,
                        ),
                    )
                } else {
                    r is None
                },
                _ => r is None,
            },
    {
        match (self.first_token_at, self.last_token_at) {
            (Some(first), Some(last)) => {
                let num_generated = self.output_tokens.len();
                if num_generated > 1 {
                    #[verifier::truncate]
                    let steps = (num_generated - 1) as u32;
                    return Some(divide_duration(elapsed_between(last, first), steps));
                }
                None
            },
            _ => None,
        }
    }
}

/// Abstract state of the scheduler.
pub struct SchedulerView {
    pub max_num_seqs: usize,
    pub waiting: Seq<Sequence>,
    pub running: Map<usize, Sequence>,
    pub finished: Map<usize, Sequence>,
}

impl SchedulerView {
    /// Every pooled sequence is filed under its own id, running ones are
    /// `Running` and finished ones are `Finished`.
    pub open spec fn tracks_status(self) -> bool {
        &&& forall|k: usize| #[trigger]
            self.running.contains_key(k) ==> self.running[k].id == k && self.running[k].status
                == SequenceStatus::Running
        &&& forall|k: usize| #[trigger]
            self.finished.contains_key(k) ==> self.finished[k].id == k && self.finished[k].status is Finished
    }
}

/// `ids` lists every key of `running` once, and `counts` gives each one's total tokens.
pub open spec fn lists_running(ids: Seq<usize>, counts: Seq<usize>, running: Map<usize, Sequence>) -> bool {
    &&& ids.no_duplicates()
    &&& ids.to_set() == running.dom()
    &&& counts.len() == ids.len()
    &&& forall|i: int| 0 <= i < ids.len() ==> #[trigger] counts[i] == total_tokens_of(running[ids[i]])
}

/// Position of the first sequence with id `id` in `w` from `i` on, or -1.
pub open spec fn position_from(w: Seq<Sequence>, id: usize, i: int) -> int
    decreases w.len() - i,
{
    if i < 0 || i >= w.len() {
        -1
    } else if w[i].id == id {
        i
    } else {
        position_from(w, id, i + 1)
    }
}

/// Position of the first sequence with id `id` in `w`, or -1.
pub open spec fn position_of(w: Seq<Sequence>, id: usize) -> int {
    position_from(w, id, 0)
}

/// A found position holds a sequence with the sought id, and none before it does.
pub proof fn lemma_position_from(w: Seq<Sequence>, id: usize, i: int)
    requires
        0 <= i,
    ensures
        position_from(w, id, i) >= 0 ==> i <= position_from(w, id, i) < w.len() && w[position_from(
            w,
            id,
            i,
        )].id == id,
        forall|j: int| i <= j < w.len() && (position_from(w, id, i) < 0 || j < position_from(w, id, i))
            ==> #[trigger] w[j].id != id,
    decreases w.len() - i,
{
    if i < w.len() && w[i].id != id {
        lemma_position_from(w, id, i + 1);
    }
}

/// `s` marked finished for `reason`.
pub open spec fn finished_as(s: Sequence, reason: FinishReason) -> Sequence {
    Sequence { status: SequenceStatus::Finished(reason), ..s }
}

/// `s2` is `s` after generating `token`, stamped at some instant, with status `status`.
pub open spec fn stepped(s: Sequence, s2: Sequence, token: u32, status: SequenceStatus) -> bool {
    &&& s2.id == s.id
    &&& s2.prompt_tokens@ == s.prompt_tokens@
    &&& s2.output_tokens@ == s.output_tokens@.push(token)
    &&& s2.max_tokens == s.max_tokens
    &&& s2.status == status
    &&& s2.created_at == s.created_at
    &&& s2.last_token_at is Some
    &&& s2.first_token_at == if s.first_token_at is Some { s.first_token_at } else { s2.last_token_at }
}

/// Status of `s` after generating one more token (`out_len` tokens in all).
pub open spec fn status_after_step(s: Sequence, out_len: nat, is_stop_token: bool) -> SequenceStatus {
    if is_stop_token {
        SequenceStatus::Finished(FinishReason::StopTokenEncountered)
    } else if out_len >= s.max_tokens {
        SequenceStatus::Finished(FinishReason::MaxTokensReached)
    } else {
        s.status
    }
}

/// Decode batches count every token of each running sequence: when a batch
/// lists the running pool, each running sequence appears in it, and the
/// count beside each id is that sequence's prompt length plus the number of
/// tokens it has generated so far.
pub proof fn law_decode_counts_prompt_and_output(ids: Seq<usize>, counts: Seq<usize>, running: Map<usize, Sequence>)
    requires
        lists_running(ids, counts, running),
    ensures
        counts.len() == ids.len(),
        forall|k: usize| running.contains_key(k) ==> #[trigger] ids.contains(k),
        forall|i: int|
            0 <= i < ids.len() ==> running.contains_key(ids[i]) && #[trigger] counts[i]
                == running[ids[i]].prompt_tokens@.len() + running[ids[i]].output_tokens@.len(),
{
    assert forall|k: usize| running.contains_key(k) implies #[trigger] ids.contains(k) by {
        assert(ids.to_set().contains(k));
    }
    assert forall|i: int| 0 <= i < ids.len() implies running.contains_key(ids[i]) by {
        assert(ids.to_set().contains(ids[i]));
    }
}

/// Finish reasons of a step: when a running sequence `s` takes one step with
/// `token` and becomes `s2`, `s2` keeps its prompt and limit and has `token`
/// appended to its output; it has finished for a stop token exactly when
/// the token was a stop token, has finished at its token limit exactly when
/// the token was no stop token and its output reached `max_tokens`, and is
/// still running otherwise.
pub proof fn law_step_finish_reason(s: Sequence, s2: Sequence, token: u32, is_stop_token: bool)
    requires
        s.status == SequenceStatus::Running,
        stepped(s, s2, token, status_after_step(s, s.output_tokens@.len() + 1, is_stop_token)),
    ensures
        s2.output_tokens@.len() == s.output_tokens@.len() + 1,
        s2.output_tokens@.last() == token,
        s2.output_tokens@.take(s.output_tokens@.len() as int) == s.output_tokens@,
        s2.prompt_tokens@ == s.prompt_tokens@,
        s2.max_tokens == s.max_tokens,
        s2.status == SequenceStatus::Finished(FinishReason::StopTokenEncountered) <==> is_stop_token,
        s2.status == SequenceStatus::Finished(FinishReason::MaxTokensReached) <==> !is_stop_token
            && s2.output_tokens@.len() >= s2.max_tokens,
        s2.status == SequenceStatus::Running <==> !is_stop_token && s2.output_tokens@.len() < s2.max_tokens,
{
}

/// Continuous-batching scheduler over a waiting queue and running/finished pools.
pub struct ContinuousScheduler {
    pub max_num_seqs: usize,
    waiting_queue: VecDeque<Sequence>,
    running_pool: HashMap<usize, Sequence>,
    finished_pool: HashMap<usize, Sequence>,
}

impl View for ContinuousScheduler {
    type V = SchedulerView;

    closed spec fn view(&self) -> SchedulerView {
        SchedulerView {
            max_num_seqs: self.max_num_seqs,
            waiting: self.waiting_queue@,
            running: self.running_pool@,
            finished: self.finished_pool@,
        }
    }
}

impl ContinuousScheduler {
    /// An empty scheduler admitting at most `max_num_seqs` running sequences.
    pub fn new(max_num_seqs: usize) -> (s: Self)
        ensures
            s@.max_num_seqs == max_num_seqs,
            s@.waiting == Seq::<Sequence>::empty(),
            s@.running == Map::<usize, Sequence>::empty(),
            s@.finished == Map::<usize, Sequence>::empty(),
            s@.tracks_status(),
    {
        ContinuousScheduler {
            max_num_seqs,
            waiting_queue: VecDeque::new(),
            running_pool: HashMap::new(),
            finished_pool: HashMap::new(),
        }
    }

    /// Queues a sequence behind the waiting ones.
    pub fn submit_sequence(&mut self, seq: Sequence)
        ensures
            final(self)@ == (SchedulerView { waiting: old(self)@.waiting.push(seq), ..old(self)@ }),
    {
        self.waiting_queue.push_back(seq);
    }

    /// Ids of the running sequences, each once.
    pub fn active_sequence_ids(&self) -> (r: Vec<usize>)
        ensures
            r@.no_duplicates(),
            r@.to_set() == self@.running.dom(),
    {
        let mut ids: Vec<usize> = Vec::new();
        let ghost ks = vstd::std_specs::hash::spec_keys_iter(&self.running_pool).remaining();
        proof {
            vstd::std_specs::hash::axiom_spec_keys_iter(&self.running_pool);
        }
        for k in it: self.running_pool.keys()
            invariant
                it.seq() == ks,
                ids@.len() == it.index(),
                forall|j: int| 0 <= j < it.index() ==> ids@[j] == *ks[j],
        {
            ids.push(*k);
        }
        assert(ids@ =~= ks.unref());
        ids
    }

    /// The running sequence, or else the finished one, with this id.
    pub fn get_sequence(&self, seq_id: usize) -> (r: Option<&Sequence>)
        ensures
            self@.running.contains_key(seq_id) ==> r == Some(&self@.running[seq_id]),
            !self@.running.contains_key(seq_id) && self@.finished.contains_key(seq_id) ==> r == Some(
                &self@.finished[seq_id],
            ),
            !self@.running.contains_key(seq_id) && !self@.finished.contains_key(seq_id) ==> r is None,
    {
        match self.running_pool.get(&seq_id) {
            Some(s) => Some(s),
            None => self.finished_pool.get(&seq_id),
        }
    }

    /// Plans one iteration: a decode batch of every running sequence when any
    /// runs; otherwise, when the pool has room, admits the front waiting
    /// sequence through the block manager's prefix matching as a prefill
    /// batch. A failed admission releases the sequence's page table, puts the
    /// sequence back at the front and reports the memory error.
    pub fn schedule_iteration(&mut self, block_manager: &mut BlockSpaceManager) -> (r: Result<
        Option<ScheduledBatch>,
        SchedulerError,
    >)
        requires
            old(block_manager).wf(),
            forall|k: usize| #[trigger]
                old(self)@.running.contains_key(k) ==> total_tokens_of(old(self)@.running[k]) <= usize::MAX,
            old(self)@.running.len() == 0 && old(self)@.max_num_seqs > 0 && old(self)@.waiting.len() > 0
                ==> can_admit(old(block_manager)@, old(self)@.waiting[0].prompt_tokens@),
        ensures
            final(block_manager).wf(),
            old(self)@.tracks_status() ==> final(self)@.tracks_status(),
            old(self)@.running.len() > 0 ==> {
                &&& final(self)@ == old(self)@
                &&& final(block_manager)@ == old(block_manager)@
                &&& r matches Ok(Some(b)) && b.batch_type == BatchType::Decode && lists_running(
                    b.sequence_ids@,
                    b.token_counts@,
                    old(self)@.running,
                )
            },
            old(self)@.running.len() > 0 ==> (r matches Ok(Some(b)) && b.token_counts@.len()
                == b.sequence_ids@.len() && forall|i: int|
                0 <= i < b.sequence_ids@.len() ==> #[trigger] b.token_counts@[i]
                    == old(self)@.running[b.sequence_ids@[i]].prompt_tokens@.len()
                    + old(self)@.running[b.sequence_ids@[i]].output_tokens@.len()),
            old(self)@.running.len() == 0 && (old(self)@.max_num_seqs == 0 || old(self)@.waiting.len()
                == 0) ==> {
                &&& final(self)@ == old(self)@
                &&& final(block_manager)@ == old(block_manager)@
                &&& r == Ok::<Option<ScheduledBatch>, SchedulerError>(None)
            },
            old(self)@.running.len() == 0 && old(self)@.max_num_seqs > 0 && old(self)@.waiting.len() > 0
                ==> {
                let s = old(self)@.waiting[0];
                let (v1, ar) = old(block_manager)@.admit_prompt(
                    s.id,
                    s.prompt_tokens@,
                    old(block_manager)@.block_size as nat,
                );
                match ar {
                    Ok(_) => {
                        &&& final(block_manager)@ == v1
                        &&& final(self)@ == (SchedulerView {
                            waiting: old(self)@.waiting.drop_first(),
                            running: old(self)@.running.insert(
                                s.id,
                                Sequence { status: SequenceStatus::Running, ..s },
                            ),
                            ..old(self)@
                        })
                        &&& r matches Ok(Some(b)) && b.batch_type == BatchType::Prefill
                            && b.sequence_ids@ == seq![s.id] && b.token_counts@ == seq![
                            s.prompt_tokens@.len() as usize
                        ]
                    },
                    Err(e) => {
                        &&& final(block_manager)@ == v1.release_sequence(s.id).0
                        &&& final(self)@ == old(self)@
                        &&& r == Err::<Option<ScheduledBatch>, SchedulerError>(SchedulerError::Memory(e))
                    },
                }
            },
    {
        if self.running_pool.len() > 0 {
            let mut decode_seq_ids: Vec<usize> = Vec::new();
            let mut decode_token_counts: Vec<usize> = Vec::new();
            let ghost ks = vstd::std_specs::hash::spec_keys_iter(&self.running_pool).remaining();
            proof {
                vstd::std_specs::hash::axiom_spec_keys_iter(&self.running_pool);
            }
            for k in it: self.running_pool.keys()
                invariant
                    it.seq() == ks,
                    ks.unref().to_set() == self.running_pool@.dom(),
                    forall|kk: usize| #[trigger]
                        self.running_pool@.contains_key(kk) ==> total_tokens_of(self.running_pool@[kk])
                            <= usize::MAX,
                    decode_seq_ids@.len() == it.index(),
                    decode_token_counts@.len() == it.index(),
                    forall|j: int| 0 <= j < it.index() ==> decode_seq_ids@[j] == *ks[j],
                    forall|j: int|
                        0 <= j < it.index() ==> #[trigger] decode_token_counts@[j] == total_tokens_of(
                            self.running_pool@[decode_seq_ids@[j]],
                        ),
            {
                let ghost idx = decode_seq_ids@.len() as int;
                assert(ks.unref()[idx] == *ks[idx]);
                assert(ks.unref().to_set().contains(*k));
                let seq = self.running_pool.get(k).unwrap();
                decode_seq_ids.push(*k);
                decode_token_counts.push(seq.total_tokens());
            }
            assert(decode_seq_ids@ =~= ks.unref());
            proof {
                law_decode_counts_prompt_and_output(decode_seq_ids@, decode_token_counts@, self@.running);
            }
            return Ok(
                Some(
                    ScheduledBatch {
                        batch_type: BatchType::Decode,
                        sequence_ids: decode_seq_ids,
                        token_counts: decode_token_counts,
                    },
                ),
            );
        }
        if self.running_pool.len() < self.max_num_seqs {
            if let Some(mut next_seq) = self.waiting_queue.pop_front() {
                let seq_id = next_seq.id;
                match block_manager.match_or_allocate_prefix(seq_id, next_seq.prompt_tokens.as_slice()) {
                    Err(err) => {
                        let _ = block_manager.free_sequence(seq_id);
                        self.waiting_queue.push_front(next_seq);
                        proof {
                            assert(self@.waiting =~= old(self)@.waiting);
                        }
                        return Err(SchedulerError::Memory(err));
                    },
                    Ok(_) => {},
                }
                next_seq.status = SequenceStatus::Running;
                let prompt_len = next_seq.prompt_tokens.len();
                self.running_pool.insert(seq_id, next_seq);
                let mut ids: Vec<usize> = Vec::new();
                ids.push(seq_id);
                let mut counts: Vec<usize> = Vec::new();
                counts.push(prompt_len);
                proof {
                    assert(ids@ =~= seq![seq_id]);
                    assert(counts@ =~= seq![prompt_len]);
                    assert(self@.waiting =~= old(self)@.waiting.drop_first());
                }
                return Ok(
                    Some(
                        ScheduledBatch { batch_type: BatchType::Prefill, sequence_ids: ids, token_counts: counts },
                    ),
                );
            }
        }
        Ok(None)
    }

    /// Records `token_id` as the next output of a running sequence (stamping
    /// its token times) and appends one token to its page table; the sequence
    /// finishes on a stop token or when it reaches its token limit, leaving
    /// the running pool, releasing its page table and entering the finished pool.
    pub fn step_sequence(
        &mut self,
        block_manager: &mut BlockSpaceManager,
        seq_id: usize,
        token_id: u32,
        is_stop_token: bool,
    ) -> (r: Result<(), SchedulerError>)
        requires
            old(block_manager).wf(),
            old(self)@.running.contains_key(seq_id) ==> old(self)@.running[seq_id].output_tokens@.len()
                < usize::MAX,
            old(self)@.running.contains_key(seq_id) && old(block_manager)@.tables.contains_key(seq_id)
                ==> {
                let t = old(block_manager)@.tables[seq_id].logical_tokens + 1;
                &&& old(block_manager)@.block_size > 0
                &&& t + old(block_manager)@.block_size - 1 <= usize::MAX
            },
        ensures
            final(block_manager).wf(),
            old(self)@.tracks_status() ==> final(self)@.tracks_status(),
            !old(self)@.running.contains_key(seq_id) ==> {
                &&& r == Err::<(), SchedulerError>(SchedulerError::SequenceNotFound(seq_id))
                &&& final(self)@ == old(self)@
                &&& final(block_manager)@ == old(block_manager)@
            },
            old(self)@.running.contains_key(seq_id) ==> {
                let s = old(self)@.running[seq_id];
                let out_len = s.output_tokens@.len() + 1;
                let (v1, ar) = old(block_manager)@.append(seq_id, 1);
                &&& final(self)@.waiting == old(self)@.waiting
                &&& final(self)@.max_num_seqs == old(self)@.max_num_seqs
                &&& match ar {
                    Err(e) => {
                        &&& r == Err::<(), SchedulerError>(SchedulerError::Memory(e))
                        &&& final(block_manager)@ == v1
                        &&& final(self)@.running.contains_key(seq_id)
                        &&& stepped(s, final(self)@.running[seq_id], token_id, s.status)
                        &&& final(self)@.running.remove(seq_id) == old(self)@.running.remove(seq_id)
                        &&& final(self)@.finished == old(self)@.finished
                    },
                    Ok(()) => {
                        let status = status_after_step(s, out_len, is_stop_token);
                        if status is Finished {
                            let (v2, fr) = v1.release_sequence(seq_id);
                            &&& final(block_manager)@ == v2
                            &&& final(self)@.running == old(self)@.running.remove(seq_id)
                            &&& match fr {
                                Ok(()) => {
                                    &&& r == Ok::<(), SchedulerError>(())
                                    &&& final(self)@.finished.contains_key(seq_id)
                                    &&& stepped(s, final(self)@.finished[seq_id], token_id, status)
                                    &&& final(self)@.finished.remove(seq_id) == old(self)@.finished.remove(seq_id)
                                },
                                Err(e) => {
                                    &&& r == Err::<(), SchedulerError>(SchedulerError::Memory(e))
                                    &&& final(self)@.finished == old(self)@.finished
                                },
                            }
                        } else {
                            &&& r == Ok::<(), SchedulerError>(())
                            &&& final(block_manager)@ == v1
                            &&& final(self)@.running.contains_key(seq_id)
                            &&& stepped(s, final(self)@.running[seq_id], token_id, status)
                            &&& final(self)@.running.remove(seq_id) == old(self)@.running.remove(seq_id)
                            &&& final(self)@.finished == old(self)@.finished
                        }
                    },
                }
            },
    {
        let now = clock_now();
        let mut seq = match self.running_pool.remove(&seq_id) {
            None => {
                proof {
                    assert(self@.running =~= old(self)@.running);
                }
                return Err(SchedulerError::SequenceNotFound(seq_id));
            },
            Some(s) => s,
        };
        let ghost s0 = seq;
        if seq.first_token_at.is_none() {
            seq.first_token_at = Some(now);
        }
        seq.last_token_at = Some(now);
        seq.output_tokens.push(token_id);
        match block_manager.append_tokens(seq_id, 1) {
            Err(e) => {
                self.running_pool.insert(seq_id, seq);
                proof {
                    assert(self@.running.remove(seq_id) =~= old(self)@.running.remove(seq_id));
                }
                return Err(SchedulerError::Memory(e));
            },
            Ok(()) => {},
        }
        if is_stop_token {
            seq.status = SequenceStatus::Finished(FinishReason::StopTokenEncountered);
        } else if seq.output_tokens.len() >= seq.max_tokens {
            seq.status = SequenceStatus::Finished(FinishReason::MaxTokensReached);
        }
        if seq.is_finished() {
            match block_manager.free_sequence(seq_id) {
                Err(e) => {
                    return Err(SchedulerError::Memory(e));
                },
                Ok(()) => {},
            }
            self.finished_pool.insert(seq_id, seq);
            proof {
                assert(self@.finished.remove(seq_id) =~= old(self)@.finished.remove(seq_id));
            }
        } else {
            self.running_pool.insert(seq_id, seq);
            proof {
                assert(self@.running.remove(seq_id) =~= old(self)@.running.remove(seq_id));
            }
        }
        Ok(())
    }

    /// Aborts a running or waiting sequence: it enters the finished pool as
    /// aborted and its page table is released. Finished or unknown ids are refused.
    pub fn abort_sequence(&mut self, block_manager: &mut BlockSpaceManager, seq_id: usize) -> (r: Result<
        (),
        SchedulerError,
    >)
        requires
            old(block_manager).wf(),
        ensures
            final(block_manager).wf(),
            old(self)@.tracks_status() ==> final(self)@.tracks_status(),
            old(self)@.running.contains_key(seq_id) ==> {
                &&& r == Ok::<(), SchedulerError>(())
                &&& final(self)@ == (SchedulerView {
                    running: old(self)@.running.remove(seq_id),
                    finished: old(self)@.finished.insert(
                        seq_id,
                        finished_as(old(self)@.running[seq_id], FinishReason::Aborted),
                    ),
                    ..old(self)@
                })
                &&& final(block_manager)@ == old(block_manager)@.release_sequence(seq_id).0
                &&& !final(block_manager)@.tables.contains_key(seq_id)
            },
            !old(self)@.running.contains_key(seq_id) && position_of(old(self)@.waiting, seq_id) >= 0 ==> {
                let p = position_of(old(self)@.waiting, seq_id);
                &&& r == Ok::<(), SchedulerError>(())
                &&& final(self)@ == (SchedulerView {
                    waiting: old(self)@.waiting.remove(p),
                    finished: old(self)@.finished.insert(
                        seq_id,
                        finished_as(old(self)@.waiting[p], FinishReason::Aborted),
                    ),
                    ..old(self)@
                })
                &&& final(block_manager)@ == old(block_manager)@.release_sequence(seq_id).0
                &&& !final(block_manager)@.tables.contains_key(seq_id)
            },
            !old(self)@.running.contains_key(seq_id) && position_of(old(self)@.waiting, seq_id) < 0 ==> {
                &&& final(self)@ == old(self)@
                &&& final(block_manager)@ == old(block_manager)@
                &&& r == if old(self)@.finished.contains_key(seq_id) {
                    Err::<(), SchedulerError>(SchedulerError::SequenceAlreadyFinished(seq_id))
                } else {
                    Err::<(), SchedulerError>(SchedulerError::SequenceNotFound(seq_id))
                }
            },
    {
        if let Some(mut seq) = self.running_pool.remove(&seq_id) {
            seq.status = SequenceStatus::Finished(FinishReason::Aborted);
            let _ = block_manager.free_sequence(seq_id);
            self.finished_pool.insert(seq_id, seq);
            return Ok(());
        }
        proof {
            assert(self@.running =~= old(self)@.running);
        }
        let mut pos: usize = 0;
        let mut found = false;
        while pos < self.waiting_queue.len()
            invariant_except_break
                self@ == old(self)@,
                0 <= pos <= self@.waiting.len(),
                !found,
                position_of(self@.waiting, seq_id) == position_from(self@.waiting, seq_id, pos as int),
            ensures
                self@ == old(self)@,
                found ==> pos < self@.waiting.len() && position_of(self@.waiting, seq_id) == pos,
                !found ==> position_of(self@.waiting, seq_id) < 0,
            decreases self@.waiting.len() - pos,
        {
            if self.waiting_queue[pos].id == seq_id {
                found = true;
                break;
            }
            pos = pos + 1;
        }
        proof {
            lemma_position_from(old(self)@.waiting, seq_id, 0);
        }
        if found {
            if let Some(mut seq) = self.waiting_queue.remove(pos) {
                seq.status = SequenceStatus::Finished(FinishReason::Aborted);
                let _ = block_manager.free_sequence(seq_id);
                self.finished_pool.insert(seq_id, seq);
                return Ok(());
            }
        }
        if self.finished_pool.contains_key(&seq_id) {
            return Err(SchedulerError::SequenceAlreadyFinished(seq_id));
        }
        Err(SchedulerError::SequenceNotFound(seq_id))
    }

    /// Number of running sequences.
    pub fn running_count(&self) -> (r: usize)
        ensures
            r == self@.running.len(),
    {
        self.running_pool.len()
    }

    /// Number of waiting sequences.
    pub fn waiting_count(&self) -> (r: usize)
        ensures
            r == self@.waiting.len(),
    {
        self.waiting_queue.len()
    }

    /// Number of finished sequences.
    pub fn finished_count(&self) -> (r: usize)
        ensures
            r == self@.finished.len(),
    {
        self.finished_pool.len()
    }
}

} // verus!
