//! Physical block allocator with reference counts, per-sequence page tables
//! and radix prefix sharing.

use vstd::prelude::*;
use crate::memory::radix::{RadixPrefixCache, root_only};
use crate::memory::model::{
    PoolView, TableView, ManagerView, occurrences, blocks_needed, chunk_path, matched_depth,
    hit_blocks, live_entry, first_unreferenced, lemma_first_unreferenced, extend_prefix,
    release_result, can_admit, flat_index, view_wf, lemma_occurrences_take,
    lemma_occurrences_prefix, lemma_matched_depth, lemma_extend_prefix_congruent, own_chunks,
    lemma_own_chunks_congruent, disown, lemma_disown_congruent, lemma_claim_many_refs,
    lemma_own_chunks_other, lemma_own_chunks_longer, lemma_owner_len, lemma_extend_prefix_frame,
    owners_indexed, keeps_live_entries,
};
use crate::memory::accounting::{
    all_live, free_in_range, lemma_claim_top_consistent, lemma_release_consistent,
    lemma_release_seq_consistent, lemma_claim_many_consistent, lemma_bump_seq_consistent,
    lemma_admit_prompt_consistent,
};

verus! {

broadcast use vstd::std_specs::hash::group_hash_axioms;

/// Errors raised by the block manager.
#[derive(Debug, Clone, Copy, PartialEq, Eq, Structural)]
pub enum MemoryError {
    /// No free blocks remain in the pool.
    OutOfMemory,
    /// The sequence has no page table.
    SequenceNotFound(usize),
    /// The block is out of range or holds no reference.
    DoubleFree(usize),
    /// The sequence would need more blocks than a sequence may hold.
    CapacityExceeded,
}

/// Metadata for one physical block of the key-value pool.
#[derive(Debug, Clone, Copy, PartialEq, Eq, Structural)]
pub struct PhysicalBlock {
    pub block_id: usize,
    pub ref_count: usize,
    pub is_free: bool,
    pub mapped_seq_id: Option<usize>,
    pub is_prefix_cached: bool,
    pub is_speculative: bool,
}

/// Page table of one sequence: its token count and its physical blocks in order.
#[derive(Debug, Clone)]
pub struct SequencePageTable {
    pub seq_id: usize,
    pub logical_tokens: usize,
    pub physical_block_ids: Vec<usize>,
}

/// Telemetry snapshot of one physical block.
#[derive(Debug, Clone, Copy, PartialEq, Eq, Structural)]
pub struct BlockInspectInfo {
    pub block_id: usize,
    pub ref_count: usize,
    pub is_free: bool,
    pub mapped_seq_id: Option<usize>,
    pub is_prefix_cached: bool,
    pub is_speculative: bool,
}

/// Copies a list of block numbers.
fn copy_ids(a: &Vec<usize>) -> (r: Vec<usize>)
    ensures
        r@ == a@,
{
    let mut r: Vec<usize> = Vec::new();
    let mut i: usize = 0;
    while i < a.len()
        invariant
            0 <= i <= a@.len(),
            r@ == a@.take(i as int),
        decreases a@.len() - i,
    {
        r.push(a[i]);
        i = i + 1;
        assert(r@ =~= a@.take(i as int));
    }
    assert(r@ =~= a@);
    r
}


/// Copies `tokens[start..end]`.
fn tokens_range(tokens: &[u32], start: usize, end: usize) -> (r: Vec<u32>)
    requires
        start <= end <= tokens@.len(),
    ensures
        r@ == tokens@.subrange(start as int, end as int),
{
    let mut r: Vec<u32> = Vec::new();
    let mut i: usize = start;
    while i < end
        invariant
            start <= i <= end <= tokens@.len(),
            r@ == tokens@.subrange(start as int, i as int),
        decreases end - i,
    {
        r.push(tokens[i]);
        i = i + 1;
        assert(r@ =~= tokens@.subrange(start as int, i as int));
    }
    r
}

proof fn lemma_chunk_bounds(i: nat, len: nat, bs: nat)
    requires
        bs > 0,
        i < len / bs,
    ensures
        (i + 1) * bs <= len,
        i * bs + bs == (i + 1) * bs,
{
    vstd::arithmetic::div_mod::lemma_fundamental_div_mod(len as int, bs as int);
    let n = len / bs;
    assert((i + 1) * bs <= n * bs) by (nonlinear_arith)
        requires
            i + 1 <= n,
            bs > 0,
    ;
    assert(n * bs == bs * n) by (nonlinear_arith);
    assert(i * bs + bs == (i + 1) * bs) by (nonlinear_arith);
}


proof fn lemma_flat_index(i: int, j: int, width: int, rows: int)
    requires
        0 <= i < rows,
        0 <= j < width,
    ensures
        0 <= flat_index(i, j, width) < rows * width,
        flat_index(i, j, width) / width == i,
        flat_index(i, j, width) % width == j,
{
    vstd::arithmetic::div_mod::lemma_fundamental_div_mod_converse(i * width + j, width, i, j);
    assert(i * width + j < rows * width) by (nonlinear_arith)
        requires
            0 <= i < rows,
            0 <= j < width,
    ;
    assert(0 <= i * width) by (nonlinear_arith)
        requires
            0 <= i,
            0 <= width,
    ;
}


/// Physical block allocator and page tables with radix prefix sharing.
pub struct BlockSpaceManager {
    pub total_blocks: usize,
    pub block_size: usize,
    pub max_blocks_per_seq: usize,
    physical_blocks: Vec<PhysicalBlock>,
    /// For each block, the index node it was claimed for (0, the root, when
    /// it was claimed for any other use).
    block_owner: Vec<usize>,
    free_stack: Vec<usize>,
    page_tables: std::collections::HashMap<usize, SequencePageTable>,
    prefix_cache: RadixPrefixCache,
    pub prefix_cache_lookups: usize,
    pub prefix_cache_hits: usize,
}

impl View for BlockSpaceManager {
    type V = ManagerView;

    closed spec fn view(&self) -> ManagerView {
        ManagerView {
            total_blocks: self.total_blocks,
            block_size: self.block_size,
            max_blocks_per_seq: self.max_blocks_per_seq,
            lookups: self.prefix_cache_lookups,
            hits: self.prefix_cache_hits,
            pool: PoolView { blocks: self.physical_blocks@, free: self.free_stack@ },
            owner: Seq::new(
                self.block_owner@.len(),
                |b: int|
                    if self.block_owner@[b] == 0 {
                        None
                    } else {
                        Some(self.prefix_cache.path_of(self.block_owner@[b] as int))
                    },
            ),
            tables: self.page_tables@.map_values(
                |t: SequencePageTable|
                    TableView { logical_tokens: t.logical_tokens, blocks: t.physical_block_ids@ },
            ),
            prefix: self.prefix_cache@,
        }
    }
}

impl BlockSpaceManager {
    /// Well-formedness: block ids match positions, every block number held
    /// anywhere names a block of the pool, the free stack lists each block
    /// that holds no reference exactly once (and no other) and exactly those
    /// blocks are flagged free, and every referenced block claimed for a chunk
    /// path is still the index's entry for that path.
    pub closed spec fn wf(&self) -> bool {
        &&& self.physical_blocks@.len() == self.total_blocks
        &&& forall|i: int|
            0 <= i < self.physical_blocks@.len() ==> #[trigger] self.physical_blocks@[i].block_id
                == i
        &&& forall|k: int|
            0 <= k < self.free_stack@.len() ==> #[trigger] self.free_stack@[k] < self.total_blocks
        &&& forall|s: usize| #[trigger]
            self.page_tables@.contains_key(s) ==> self.page_tables@[s].seq_id == s && forall|
                j: int,
            |
                0 <= j < self.page_tables@[s].physical_block_ids@.len()
                    ==> #[trigger] self.page_tables@[s].physical_block_ids@[j]
                    < self.total_blocks
        &&& self.prefix_cache.wf()
        &&& self.block_owner@.len() == self.total_blocks
        &&& forall|b: int|
            0 <= b < self.block_owner@.len() ==> #[trigger] self.block_owner@[b]
                < self.prefix_cache.node_count()
        &&& forall|p: Seq<Seq<u32>>| #[trigger]
            self.prefix_cache@.contains_key(p) ==> self.prefix_cache@[p] < self.total_blocks
        &&& self@.pool.consistent()
        &&& owners_indexed(self@)
    }

    /// The structural facts of a well-formed manager, stated over its view.
    pub proof fn lemma_view_wf(&self)
        requires
            self.wf(),
        ensures
            view_wf(self@),
            self@.pool.consistent(),
            owners_indexed(self@),
    {
        self.prefix_cache.lemma_view_facts();
        assert forall|s: usize, j: int|
            self@.tables.contains_key(s) && 0 <= j < self@.tables[s].blocks.len() implies #[trigger] self@.tables[s].blocks[j]
                < self@.total_blocks by {
            assert(self.page_tables@.contains_key(s));
        }
    }

    /// Creates a pool of `total_blocks` free blocks; block 0 is handed out first.
    pub fn new(total_blocks: usize, block_size: usize, max_blocks_per_seq: usize) -> (m: Self)
        ensures
            m.wf(),
            m@.total_blocks == total_blocks,
            m@.block_size == block_size,
            m@.max_blocks_per_seq == max_blocks_per_seq,
            m@.lookups == 0,
            m@.hits == 0,
            m@.pool.blocks.len() == total_blocks,
            forall|i: int|
                0 <= i < total_blocks ==> #[trigger] m@.pool.blocks[i] == (PhysicalBlock {
                    block_id: i as usize,
                    ref_count: 0,
                    is_free: true,
                    mapped_seq_id: None,
                    is_prefix_cached: false,
                    is_speculative: false,
                }),
            m@.pool.free == Seq::new(total_blocks as nat, |k: int| (total_blocks - 1 - k) as usize),
            m@.tables == Map::<usize, TableView>::empty(),
            m@.prefix == Map::<Seq<Seq<u32>>, usize>::empty(),
            m@.pool.consistent(),
            m@.owner == Seq::new(total_blocks as nat, |b: int| None::<Seq<Seq<u32>>>),
    {
        let mut physical_blocks: Vec<PhysicalBlock> = Vec::with_capacity(total_blocks);
        let mut free_stack: Vec<usize> = Vec::with_capacity(total_blocks);
        let mut id = total_blocks;
        while id > 0
            invariant
                id <= total_blocks,
                free_stack@ == Seq::new(
                    (total_blocks - id) as nat,
                    |k: int| (total_blocks - 1 - k) as usize,
                ),
            decreases id,
        {
            id = id - 1;
            free_stack.push(id);
            assert(free_stack@ =~= Seq::new(
                (total_blocks - id) as nat,
                |k: int| (total_blocks - 1 - k) as usize,
            ));
        }
        let mut block_owner: Vec<usize> = Vec::new();
        let mut id: usize = 0;
        while id < total_blocks
            invariant
                id <= total_blocks,
                physical_blocks@.len() == id,
                block_owner@.len() == id,
                forall|i: int| 0 <= i < id ==> #[trigger] block_owner@[i] == 0,
                forall|i: int|
                    0 <= i < id ==> #[trigger] physical_blocks@[i] == (PhysicalBlock {
                        block_id: i as usize,
                        ref_count: 0,
                        is_free: true,
                        mapped_seq_id: None,
                        is_prefix_cached: false,
                        is_speculative: false,
                    }),
            decreases total_blocks - id,
        {
            physical_blocks.push(
                PhysicalBlock {
                    block_id: id,
                    ref_count: 0,
                    is_free: true,
                    mapped_seq_id: None,
                    is_prefix_cached: false,
                    is_speculative: false,
                },
            );
            block_owner.push(0);
            id = id + 1;
        }
        let prefix_cache = RadixPrefixCache::new();
        let m = BlockSpaceManager {
            total_blocks,
            block_size,
            max_blocks_per_seq,
            physical_blocks,
            block_owner,
            free_stack,
            page_tables: std::collections::HashMap::new(),
            prefix_cache,
            prefix_cache_lookups: 0,
            prefix_cache_hits: 0,
        };
        proof {
            assert(m@.tables =~= Map::<usize, TableView>::empty());
            assert(m@.owner =~= Seq::new(total_blocks as nat, |b: int| None::<Seq<Seq<u32>>>));
            let free = m@.pool.free;
            assert forall|i: int, j: int|
                0 <= i < free.len() && 0 <= j < free.len() && i != j implies free[i]
                != free[j] by {}
            assert forall|b: usize| b < m@.pool.blocks.len() implies (#[trigger] free.contains(b)
                <==> m@.pool.blocks[b as int].ref_count == 0) by {
                let k = total_blocks - 1 - b;
                assert(free[k] == b);
            }
        }
        m
    }

    /// Pops a block from the free stack and gives it one reference.
    pub fn allocate_block(&mut self) -> (r: Result<usize, MemoryError>)
        requires
            old(self).wf(),
        ensures
            keeps_live_entries(old(self)@, final(self)@),
            final(self).wf(),
            old(self)@.pool.free.len() == 0 ==> r == Err::<usize, MemoryError>(MemoryError::OutOfMemory)
                && final(self)@ == old(self)@,
            old(self)@.pool.free.len() > 0 ==> r == Ok::<usize, MemoryError>(old(self)@.pool.free.last())
                && final(self)@ == (ManagerView {
                pool: old(self)@.pool.claim_top(),
                owner: old(self)@.owner.update(old(self)@.pool.free.last() as int, None),
                ..old(self)@
            }),
            final(self)@.pool.consistent(),
    {
        proof {
            old(self).lemma_view_wf();
            if old(self)@.pool.consistent() && old(self)@.pool.free.len() > 0 {
                lemma_claim_top_consistent(old(self)@.pool);
            }
        }
        match self.free_stack.pop() {
            None => Err(MemoryError::OutOfMemory),
            Some(block_id) => {
                let mut block = self.physical_blocks[block_id];
                block.is_free = false;
                block.ref_count = 1;
                block.is_prefix_cached = false;
                block.is_speculative = false;
                self.physical_blocks.set(block_id, block);
                self.block_owner.set(block_id, 0);
                proof {
                    self.prefix_cache.lemma_view_facts();
                    assert(self@.owner =~= old(self)@.owner.update(block_id as int, None));
                    let v = old(self)@;
                    assert(v.pool.free.contains(block_id));
                    assert(v.pool.free.contains(block_id) <==> v.pool.blocks[block_id as int].ref_count == 0);
                }
                Ok(block_id)
            },
        }
    }

    /// Drops one reference to `block_id`, returning it to the free stack when
    /// the count reaches zero.
    pub fn free_block(&mut self, block_id: usize) -> (r: Result<(), MemoryError>)
        requires
            old(self).wf(),
        ensures
            keeps_live_entries(old(self)@, final(self)@),
            final(self).wf(),
            !old(self)@.pool.can_release(block_id) ==> r == Err::<(), MemoryError>(
                MemoryError::DoubleFree(block_id),
            ) && final(self)@ == old(self)@,
            old(self)@.pool.can_release(block_id) ==> r == Ok::<(), MemoryError>(())
                && final(self)@ == (ManagerView {
                pool: old(self)@.pool.release(block_id),
                ..old(self)@
            }),
            final(self)@.pool.consistent(),
    {
        proof {
            old(self).lemma_view_wf();
            if old(self)@.pool.consistent() && old(self)@.pool.can_release(block_id) {
                lemma_release_consistent(old(self)@.pool, block_id);
            }
        }
        if block_id >= self.total_blocks {
            return Err(MemoryError::DoubleFree(block_id));
        }
        let mut block = self.physical_blocks[block_id];
        if block.ref_count == 0 {
            return Err(MemoryError::DoubleFree(block_id));
        }
        block.ref_count = block.ref_count - 1;
        if block.ref_count == 0 {
            block.is_free = true;
            block.mapped_seq_id = None;
            block.is_prefix_cached = false;
            block.is_speculative = false;
            self.physical_blocks.set(block_id, block);
            self.free_stack.push(block_id);
        } else {
            self.physical_blocks.set(block_id, block);
        }
        Ok(())
    }

    /// Registers (or resets) an empty page table for `seq_id`.
    pub fn register_sequence(&mut self, seq_id: usize) -> (r: Result<(), MemoryError>)
        requires
            old(self).wf(),
        ensures
            keeps_live_entries(old(self)@, final(self)@),
            final(self).wf(),
            r == Ok::<(), MemoryError>(()),
            final(self)@ == (ManagerView {
                tables: old(self)@.tables.insert(
                    seq_id,
                    TableView { logical_tokens: 0, blocks: Seq::empty() },
                ),
                ..old(self)@
            }),
    {
        self.page_tables.insert(
            seq_id,
            SequencePageTable { seq_id, logical_tokens: 0, physical_block_ids: Vec::new() },
        );
        proof {
            assert(self@.tables =~= old(self)@.tables.insert(
                seq_id,
                TableView { logical_tokens: 0, blocks: Seq::empty() },
            ));
        }
        Ok(())
    }

    /// Releases the blocks of `list` in order, stopping at the first failure.
    fn release_all(&mut self, list: &Vec<usize>) -> (r: Result<(), MemoryError>)
        requires
            old(self).wf(),
        ensures
            final(self).wf(),
            final(self)@ == (ManagerView {
                pool: old(self)@.pool.release_seq(list@).0,
                ..old(self)@
            }),
            r == release_result(old(self)@.pool.release_seq(list@).1),
            final(self)@.pool.consistent(),
    {
        proof {
            old(self).lemma_view_wf();
            if old(self)@.pool.consistent() {
                lemma_release_seq_consistent(old(self)@.pool, list@);
            }
        }
        let mut i: usize = 0;
        assert(list@.skip(0) =~= list@);
        while i < list.len()
            invariant
                self.wf(),
                0 <= i <= list@.len(),
                old(self)@.pool.release_seq(list@) == self@.pool.release_seq(list@.skip(i as int)),
                old(self)@.pool.consistent() ==> old(self)@.pool.release_seq(list@).0.consistent(),
                self@ == (ManagerView { pool: self@.pool, ..old(self)@ }),
            decreases list@.len() - i,
        {
            let ghost before = self@.pool;
            assert(list@.skip(i as int).drop_first() =~= list@.skip(i + 1));
            assert(list@.skip(i as int)[0] == list@[i as int]);
            let res = self.free_block(list[i]);
            if res.is_err() {
                return res;
            }
            i = i + 1;
        }
        assert(list@.skip(i as int) =~= Seq::<usize>::empty());
        Ok(())
    }

    /// Frees a sequence's page table, releasing each of its blocks in order.
    pub fn free_sequence(&mut self, seq_id: usize) -> (r: Result<(), MemoryError>)
        requires
            old(self).wf(),
        ensures
            keeps_live_entries(old(self)@, final(self)@),
            final(self).wf(),
            final(self)@.pool.consistent(),
            (final(self)@, r) == old(self)@.release_sequence(seq_id),
    {
        match self.page_tables.remove(&seq_id) {
            None => {
                proof {
                    assert(self@.tables =~= old(self)@.tables);
                }
                Ok(())
            },
            Some(table) => {
                proof {
                    assert(self@.tables =~= old(self)@.tables.remove(seq_id));
                }
                let r = self.release_all(&table.physical_block_ids);
                proof {
                    let (p, e) = old(self)@.pool.release_seq(old(self)@.tables[seq_id].blocks);
                    assert(r == release_result(e));
                }
                r
            },
        }
    }

    /// Truncates a sequence to `tokens_to_retain` tokens, releasing the blocks
    /// beyond those the retained tokens need, last block first.
    pub fn rollback_sequence(&mut self, seq_id: usize, tokens_to_retain: usize) -> (r: Result<
        (),
        MemoryError,
    >)
        requires
            old(self).wf(),
            tokens_to_retain > 0 ==> old(self)@.block_size > 0 && tokens_to_retain + old(
                self,
            )@.block_size - 1 <= usize::MAX,
        ensures
            keeps_live_entries(old(self)@, final(self)@),
            final(self).wf(),
            final(self)@.pool.consistent(),
            (final(self)@, r) == old(self)@.rollback(seq_id, tokens_to_retain),
    {
        let block_size = self.block_size;
        let needed_blocks = if tokens_to_retain == 0 {
            0
        } else {
            (tokens_to_retain + (block_size - 1)) / block_size
        };
        let mut table = match self.page_tables.remove(&seq_id) {
            None => {
                proof {
                    assert(self@.tables =~= old(self)@.tables);
                }
                return Err(MemoryError::SequenceNotFound(seq_id));
            },
            Some(t) => t,
        };
        let ghost blocks = table.physical_block_ids@;
        assert(old(self).page_tables@.contains_key(seq_id));
        assert(table.seq_id == seq_id);
        assert(forall|j: int| 0 <= j < blocks.len() ==> blocks[j] < self.total_blocks);
        let ghost keep: int = if blocks.len() < needed_blocks { blocks.len() as int } else { needed_blocks as int };
        let mut freed: Vec<usize> = Vec::new();
        while table.physical_block_ids.len() > needed_blocks
            invariant
                blocks.len() >= keep,
                keep == (if blocks.len() < needed_blocks { blocks.len() as int } else { needed_blocks as int }),
                table.physical_block_ids@.len() >= keep,
                table.physical_block_ids@.len() <= blocks.len(),
                table.seq_id == seq_id,
                table.physical_block_ids@ == blocks.take(table.physical_block_ids@.len() as int),
                freed@ == blocks.subrange(table.physical_block_ids@.len() as int, blocks.len() as int).reverse(),
            decreases table.physical_block_ids@.len(),
        {
            let ghost len0 = table.physical_block_ids@.len() as int;
            let b = table.physical_block_ids.pop().unwrap();
            freed.push(b);
            assert(table.physical_block_ids@ =~= blocks.take(len0 - 1));
            assert(freed@ =~= blocks.subrange(len0 - 1, blocks.len() as int).reverse());
        }
        assert(table.physical_block_ids@ =~= blocks.take(keep));
        table.logical_tokens = tokens_to_retain;
        self.page_tables.insert(seq_id, table);
        proof {
            assert forall|s: usize| #[trigger]
                self.page_tables@.contains_key(s) implies self.page_tables@[s].seq_id == s && forall|
                    j: int,
                |
                    0 <= j < self.page_tables@[s].physical_block_ids@.len()
                        ==> #[trigger] self.page_tables@[s].physical_block_ids@[j]
                        < self.total_blocks by {
                if s != seq_id {
                    assert(old(self).page_tables@.contains_key(s));
                }
            }
            assert(self@.tables =~= old(self)@.tables.insert(
                seq_id,
                TableView { logical_tokens: tokens_to_retain, blocks: blocks.take(keep) },
            ));
            assert(blocks_needed(tokens_to_retain as nat, block_size as nat) == needed_blocks);
        }
        self.release_all(&freed)
    }

    /// Pops a free block and assigns it to `seq_id` (leaving the page tables
    /// and the prefix index untouched).
    fn claim_block_for(&mut self, seq_id: usize, cached: bool) -> (r: Result<usize, MemoryError>)
        requires
            old(self).wf(),
        ensures
            final(self).wf(),
            final(self).page_tables == old(self).page_tables,
            final(self).prefix_cache == old(self).prefix_cache,
            old(self)@.pool.free.len() == 0 ==> r == Err::<usize, MemoryError>(MemoryError::OutOfMemory)
                && final(self)@ == old(self)@,
            old(self)@.pool.free.len() > 0 ==> r == Ok::<usize, MemoryError>(old(self)@.pool.free.last())
                && final(self)@ == (ManagerView {
                pool: old(self)@.pool.claim_for(seq_id, cached),
                owner: old(self)@.owner.update(old(self)@.pool.free.last() as int, None),
                ..old(self)@
            }),
    {
        proof {
            old(self).lemma_view_wf();
            if old(self)@.pool.free.len() > 0 {
                crate::memory::accounting::lemma_claim_for_consistent(old(self)@.pool, seq_id, cached);
            }
        }
        match self.free_stack.pop() {
            None => Err(MemoryError::OutOfMemory),
            Some(block_id) => {
                let mut block = self.physical_blocks[block_id];
                block.is_free = false;
                block.ref_count = 1;
                block.is_prefix_cached = cached;
                block.is_speculative = false;
                block.mapped_seq_id = Some(seq_id);
                self.physical_blocks.set(block_id, block);
                self.block_owner.set(block_id, 0);
                proof {
                    self.prefix_cache.lemma_view_facts();
                    assert(self@.pool.blocks =~= old(self)@.pool.claim_for(seq_id, cached).blocks);
                    assert(self@.owner =~= old(self)@.owner.update(block_id as int, None));
                }
                Ok(block_id)
            },
        }
    }

    /// Matches the prompt's full chunks against the prefix index, sharing the
    /// blocks of the longest indexed run whose blocks still hold a reference,
    /// and claiming (and indexing, in place of any stale entry) fresh blocks
    /// for the rest and for a trailing partial chunk; the sequence's page table
    /// then lists those blocks. Registers the sequence if needed. A prompt
    /// needing more blocks than a sequence may hold is refused with
    /// `CapacityExceeded`. Returns how many blocks were shared.
    #[verifier::loop_isolation(false)]
    #[verifier::rlimit(100)]
    pub fn match_or_allocate_prefix(&mut self, seq_id: usize, prompt_tokens: &[u32]) -> (r: Result<
        usize,
        MemoryError,
    >)
        requires
            old(self).wf(),
            can_admit(old(self)@, prompt_tokens@),
        ensures
            keeps_live_entries(old(self)@, final(self)@),
            final(self).wf(),
            final(self)@.pool.consistent(),
            (final(self)@, r) == old(self)@.admit_prompt(
                seq_id,
                prompt_tokens@,
                old(self)@.block_size as nat,
            ),
    {
        let ghost v_old = self@;
        let ghost bs = self.block_size as nat;
        let ghost tokens = prompt_tokens@;
        proof {
            old(self).lemma_view_wf();
            crate::memory::accounting::lemma_admit_keeps_live_entries(v_old, seq_id, tokens, bs);
            if v_old.pool.consistent() {
                lemma_admit_prompt_consistent(v_old, seq_id, tokens, bs);
            }
        }
        let full_chunks = prompt_tokens.len() / self.block_size;
        let has_partial = prompt_tokens.len() % self.block_size > 0;
        if full_chunks > self.max_blocks_per_seq || (has_partial && full_chunks == self.max_blocks_per_seq) {
            return Err(MemoryError::CapacityExceeded);
        }
        if !self.page_tables.contains_key(&seq_id) {
            self.page_tables.insert(
                seq_id,
                SequencePageTable { seq_id, logical_tokens: 0, physical_block_ids: Vec::new() },
            );
        }
        let ghost registered = if v_old.tables.contains_key(seq_id) {
            v_old.tables
        } else {
            v_old.tables.insert(seq_id, TableView { logical_tokens: 0, blocks: Seq::empty() })
        };
        proof {
            assert(self@.tables =~= registered);
            assert forall|s: usize| #[trigger]
                self.page_tables@.contains_key(s) implies self.page_tables@[s].seq_id == s && forall|
                    j: int,
                |
                    0 <= j < self.page_tables@[s].physical_block_ids@.len()
                        ==> #[trigger] self.page_tables@[s].physical_block_ids@[j]
                        < self.total_blocks by {
                if s != seq_id {
                    assert(old(self).page_tables@.contains_key(s));
                }
            }
        }
        let block_size = self.block_size;
        let num_full_blocks = prompt_tokens.len() / block_size;
        let mut curr_node_idx: usize = 0;
        let mut matched_cached_blocks: usize = 0;
        let mut allocated_block_ids: Vec<usize> = Vec::new();
        self.prefix_cache_lookups = self.prefix_cache_lookups + 1;

        let ghost h = matched_depth(v_old, tokens, bs);
        let ghost hits = hit_blocks(v_old, tokens, bs);
        let ghost pool0 = v_old.pool;
        let ghost shared = pool0.share_seq(hits, seq_id);
        let ghost hits0 = self.prefix_cache_hits;
        proof {
            lemma_matched_depth(v_old, tokens, bs);
            self.prefix_cache.lemma_view_facts();
            pool0.lemma_share_seq(hits, seq_id);
            assert(hits.take(0) =~= Seq::<usize>::empty());
            assert(chunk_path(tokens, bs, 0) =~= Seq::<Seq<u32>>::empty());
            assert(allocated_block_ids@ =~= hits.take(0) + shared.popped(0));
        }
        let mut matching = true;
        let mut chunk_idx: usize = 0;
        while chunk_idx < num_full_blocks
            invariant
                self.wf(),
                self.block_size == block_size,
                bs == block_size,
                block_size > 0,
                num_full_blocks == tokens.len() / bs,
                h <= num_full_blocks,
                0 <= chunk_idx <= num_full_blocks,
                matching == (chunk_idx <= h),
                curr_node_idx < self.prefix_cache.node_count(),
                self.prefix_cache.path_of(curr_node_idx as int) == chunk_path(tokens, bs, chunk_idx as nat),
                chunk_idx <= h ==> {
                    &&& self@.pool == pool0.share_seq(hits.take(chunk_idx as int), seq_id)
                    &&& self@.prefix == v_old.prefix
                    &&& self@.owner == v_old.owner
                    &&& matched_cached_blocks == chunk_idx
                    &&& allocated_block_ids@ == hits.take(chunk_idx as int)
                },
                chunk_idx > h ==> {
                    &&& self@.pool == shared.claim_many((chunk_idx - h) as nat, seq_id, true)
                    &&& self@.prefix == extend_prefix(v_old, v_old.prefix,
                        tokens,
                        bs,
                        h,
                        shared.popped((chunk_idx - h) as nat),
                        (chunk_idx - h) as nat,
                    )
                    &&& self@.owner == own_chunks(v_old, v_old.owner,
                        tokens,
                        bs,
                        h,
                        shared.popped((chunk_idx - h) as nat),
                        (chunk_idx - h) as nat,
                    )
                    &&& matched_cached_blocks == h
                    &&& allocated_block_ids@ == hits + shared.popped((chunk_idx - h) as nat)
                    &&& chunk_idx - h <= shared.free.len()
                },
                self.prefix_cache_hits == hits0 + (if chunk_idx <= h { chunk_idx as nat } else { h }),
                self@.tables == registered,
                self@.lookups == v_old.lookups + 1,
                self@.total_blocks == v_old.total_blocks,
                self@.block_size == v_old.block_size,
                self@.max_blocks_per_seq == v_old.max_blocks_per_seq,
                self.page_tables@.contains_key(seq_id),
            decreases num_full_blocks - chunk_idx,
        {
            proof {
                lemma_chunk_bounds(chunk_idx as nat, tokens.len(), bs);
            }
            let start = chunk_idx * block_size;
            let end = start + block_size;
            let chunk = tokens_range(prompt_tokens, start, end);
            let ghost i = chunk_idx as nat;
            let ghost path = chunk_path(tokens, bs, i + 1);
            let ghost st = self@;
            proof {
                assert(chunk_path(tokens, bs, i).push(chunk@) =~= path);
                self.prefix_cache.lemma_view_facts();
            }
            let mut hit = false;
            let next_node_idx = if matching {
                self.prefix_cache.find_child(curr_node_idx, &chunk)
            } else {
                None
            };
            {
                if let Some(child_idx) = next_node_idx {
                    if let Some(phys_block_id) = self.prefix_cache.block_of(child_idx) {
                        proof {
                            assert(v_old.prefix.contains_key(path));
                            assert(phys_block_id == v_old.prefix[path]);
                            assert(phys_block_id < self.total_blocks);
                            assert forall|bb: usize|
                                bb < pool0.blocks.len() implies pool0.blocks[bb as int].ref_count
                                    + #[trigger] occurrences(hits.take(i as int), bb) <= usize::MAX by {
                                lemma_occurrences_prefix(hits, i as int, bb);
                            }
                            pool0.lemma_share_seq(hits.take(i as int), seq_id);
                        }
                        if self.physical_blocks[phys_block_id].ref_count > 0
                            && self.block_owner[phys_block_id] == child_idx {
                            proof {
                                assert(self@.owner[phys_block_id as int] == Some(path));
                                if i >= h {
                                    // The entry after the matched run names a block
                                    // that held no reference, and sharing within the
                                    // run touched only live blocks.
                                    assert(hits.take(i as int) =~= hits);
                                    assert(!live_entry(v_old, path));
                                    assert(pool0.blocks[phys_block_id as int].ref_count == 0);
                                    if occurrences(hits, phys_block_id) > 0 {
                                        crate::memory::accounting::lemma_occurs_in(hits, phys_block_id);
                                        let j = choose|j: int| 0 <= j < hits.len() && hits[j] == phys_block_id;
                                        assert(pool0.blocks[hits[j] as int].ref_count > 0);
                                    }
                                    assert(false);
                                }
                                assert(phys_block_id == hits[i as int]);
                                lemma_occurrences_prefix(hits, i as int + 1, phys_block_id);
                                lemma_occurrences_take(hits, i as int, phys_block_id);
                                assert(hits.take(i as int + 1).take(i as int) =~= hits.take(i as int));
                                assert(hits.take(i as int + 1).drop_last() =~= hits.take(i as int));
                            }
                            let mut block = self.physical_blocks[phys_block_id];
                            block.ref_count = block.ref_count + 1;
                            block.is_prefix_cached = true;
                            block.mapped_seq_id = Some(seq_id);
                            self.physical_blocks.set(phys_block_id, block);
                            allocated_block_ids.push(phys_block_id);
                            matched_cached_blocks = matched_cached_blocks + 1;
                            self.prefix_cache_hits = self.prefix_cache_hits + 1;
                            curr_node_idx = child_idx;
                            hit = true;
                            proof {
                                assert(self@.pool.blocks =~= pool0.share_seq(hits.take(i as int + 1), seq_id).blocks);
                                assert(allocated_block_ids@ =~= hits.take(i as int + 1));
                                assert(owners_indexed(self@)) by {
                                    assert forall|c: usize|
                                        c < self@.pool.blocks.len() && self@.pool.blocks[c as int].ref_count > 0
                                            && #[trigger] self@.owner[c as int] is Some implies self@.prefix.contains_key(
                                        self@.owner[c as int]->0,
                                    ) && self@.prefix[self@.owner[c as int]->0] == c by {
                                        assert(st.owner[c as int] == self@.owner[c as int]);
                                        if c != phys_block_id {
                                            assert(st.pool.blocks[c as int] == self@.pool.blocks[c as int]);
                                        }
                                    }
                                }
                            }
                        }
                    }
                }
            }
            if !hit {
                proof {
                    if i < h {
                        assert(live_entry(v_old, path));
                        assert(v_old.prefix.contains_key(path));
                        let b = hits[i as int];
                        assert(b == v_old.prefix[path]);
                        assert(next_node_idx is Some);
                        let c = next_node_idx->Some_0;
                        let n = self.block_owner@[b as int];
                        assert(self@.owner == v_old.owner);
                        assert(self@.owner[b as int] == Some(path));
                        assert(n != 0);
                        assert(self.prefix_cache.path_of(n as int) == path);
                        self.prefix_cache.lemma_path_injective(n as int, c as int);
                        assert forall|bb: usize|
                            bb < pool0.blocks.len() implies pool0.blocks[bb as int].ref_count
                                + #[trigger] occurrences(hits.take(i as int), bb) <= usize::MAX by {
                            lemma_occurrences_prefix(hits, i as int, bb);
                        }
                        pool0.lemma_share_seq(hits.take(i as int), seq_id);
                        assert(self@.pool.blocks[b as int].ref_count >= pool0.blocks[b as int].ref_count);
                        assert(false);
                    }
                    assert(hits.take(h as int) =~= hits);
                    shared.lemma_claim_many_free((i - h) as nat, seq_id, true);
                    shared.lemma_claim_many_ids((i - h) as nat, seq_id, true);
                }
                matching = false;
                let ghost free_before = self@.pool.free;
                let new_block_id = self.claim_block_for(seq_id, true)?;
                allocated_block_ids.push(new_block_id);
                let ghost pc_before = self.prefix_cache@;
                let ghost cache_before = self.prefix_cache;
                let ghost owner_claimed = self@.owner;
                let ghost owners_before = self.block_owner@;
                let ghost pool_claimed = self@.pool;
                let ghost mm = (i - h) as nat;
                proof {
                    assert(free_before[free_before.len() - 1] < self.total_blocks);
                    self.prefix_cache.lemma_view_facts();
                    // The pool and owners after this claim, read against the state
                    // before the admission.
                    assert(pool_claimed == shared.claim_many(mm + 1, seq_id, true));
                    assert(free_in_range(shared)) by {
                        assert forall|j: int| 0 <= j < shared.free.len() implies #[trigger] shared.free[j] < shared.blocks.len() by {
                            assert(old(self).free_stack@[j] < old(self).total_blocks);
                        }
                    }
                    lemma_claim_many_refs(shared, mm + 1, seq_id, true);
                    lemma_own_chunks_congruent(v_old, v_old.owner, tokens, bs, h, shared.popped(mm), shared.popped(mm + 1), mm);
                    assert forall|j: int| 0 <= j < mm + 1 implies #[trigger] shared.popped(mm + 1)[j] < v_old.owner.len() by {
                        assert(shared.popped(mm + 1)[j] == shared.free[shared.free.len() - 1 - j]);
                    }
                    lemma_owner_len(v_old, v_old.owner, tokens, bs, h, shared.popped(mm + 1), mm);
                    lemma_extend_prefix_frame(v_old, v_old.prefix, tokens, bs, h, shared.popped(mm + 1), mm, path);
                    lemma_extend_prefix_congruent(v_old, v_old.prefix, tokens, bs, h, shared.popped(mm), shared.popped(mm + 1), mm);
                    assert(path.len() == i + 1);
                    assert(h + (mm + 1) == i + 1);
                    assert(new_block_id == shared.popped(mm + 1)[mm as int]);
                }
                let existing = self.prefix_cache.find_child(curr_node_idx, &chunk);
                let ghost mut indexed = true;
                match existing {
                    Some(node_idx) => {
                        let b = self.prefix_cache.block_of(node_idx).unwrap();
                        proof {
                            assert(self.prefix_cache@.contains_key(path));
                            assert(b == v_old.prefix[path]);
                            assert(b < self.total_blocks);
                            let popped1 = shared.popped(mm + 1);
                            // A live entry of the earlier state is still live now, and
                            // an entry that was not live has not become live.
                            if live_entry(v_old, path) {
                                assert(pool0.blocks[b as int].ref_count > 0);
                                assert forall|j: int| 0 <= j < mm + 1 implies popped1[j] != b by {
                                    let f = popped1[j];
                                    assert(f == pool0.free[pool0.free.len() - 1 - j]);
                                    assert(pool0.free.contains(f));
                                    assert(pool0.free.contains(f) <==> pool0.blocks[f as int].ref_count == 0);
                                }
                                assert(!popped1.contains(b));
                                lemma_own_chunks_other(v_old, v_old.owner, tokens, bs, h, popped1, mm, b);
                                assert(self@.owner[b as int] == Some(path));
                                assert(self.block_owner@[b as int] != 0);
                                self.prefix_cache.lemma_path_injective(self.block_owner@[b as int] as int, node_idx as int);
                            }
                            if self.physical_blocks@[b as int].ref_count > 0 && self.block_owner@[b as int] == node_idx {
                                assert(self@.owner[b as int] == Some(path));
                                assert(b != new_block_id);
                                lemma_own_chunks_longer(v_old, v_old.owner, tokens, bs, h, popped1, mm, b, path);
                                assert(v_old.owner[b as int] == Some(path));
                                assert forall|j: int| 0 <= j < mm + 1 implies popped1[j] != b by {
                                    if j == mm {
                                        assert(popped1[j] == new_block_id);
                                    }
                                }
                                assert(!popped1.contains(b));
                                if pool0.blocks[b as int].ref_count == 0 {
                                    assert(occurrences(hits, b) > 0);
                                    crate::memory::accounting::lemma_occurs_in(hits, b);
                                    let j = choose|j: int| 0 <= j < hits.len() && hits[j] == b;
                                    assert(live_entry(v_old, chunk_path(tokens, bs, (j + 1) as nat)));
                                    assert(chunk_path(tokens, bs, (j + 1) as nat).len() == j + 1);
                                    assert(false);
                                }
                                assert(live_entry(v_old, path));
                            }
                        }
                        if self.physical_blocks[b].ref_count > 0 && self.block_owner[b] == node_idx {
                            proof {
                                indexed = false;
                            }
                        } else {
                            self.prefix_cache.set_block(node_idx, new_block_id);
                            self.block_owner.set(new_block_id, node_idx);
                        }
                        curr_node_idx = node_idx;
                    },
                    None => {
                        let new_node_idx = self.prefix_cache.add_child(curr_node_idx, chunk, new_block_id);
                        self.block_owner.set(new_block_id, new_node_idx);
                        curr_node_idx = new_node_idx;
                    },
                }
                proof {
                    assert(indexed == !live_entry(v_old, path));
                    assert(owners_indexed(self@)) by {
                        let s1p = pc_before;
                        assert forall|c: usize|
                            c < self@.pool.blocks.len() && self@.pool.blocks[c as int].ref_count > 0
                                && #[trigger] self@.owner[c as int] is Some implies self@.prefix.contains_key(
                            self@.owner[c as int]->0,
                        ) && self@.prefix[self@.owner[c as int]->0] == c by {
                            if c != new_block_id {
                                assert(self@.owner[c as int] == owner_claimed[c as int]);
                                assert(self@.pool.blocks[c as int] == pool_claimed.blocks[c as int]);
                                let q = owner_claimed[c as int]->0;
                                assert(s1p.contains_key(q) && s1p[q] == c);
                                if indexed && q == path {
                                    // The entry for `path` named a referenced block that
                                    // owns it: it was valid, so it was kept.
                                    let n = owners_before[c as int];
                                    assert(n != 0);
                                    assert(cache_before.path_of(n as int) == path);
                                    match existing {
                                        Some(node_idx) => {
                                            cache_before.lemma_path_injective(n as int, node_idx as int);
                                        },
                                        None => {},
                                    }
                                    assert(false);
                                }
                            }
                        }
                    }
                    assert(curr_node_idx >= 1);
                    assert(self.prefix_cache.path_of(curr_node_idx as int) == path);
                    // Index updates keep the paths of existing nodes, so the owners
                    // of other blocks read the same.
                    assert forall|b: int| 0 <= b < self.block_owner@.len() implies #[trigger] self.block_owner@[b]
                        < self.prefix_cache.node_count() by {}
                    let newo: Option<Seq<Seq<u32>>> = if indexed { Some(path) } else { None };
                    assert(self@.owner =~= owner_claimed.update(new_block_id as int, newo)) by {
                        assert forall|b: int| 0 <= b < self.block_owner@.len() && b != new_block_id as int implies
                            self.prefix_cache.path_of(owners_before[b] as int) == cache_before.path_of(owners_before[b] as int) by {
                            assert(owners_before[b] < cache_before.node_count());
                        }
                    }
                    assert(owner_claimed == own_chunks(v_old, v_old.owner, tokens, bs, h, shared.popped(mm), mm).update(new_block_id as int, None));
                    assert(self@.owner =~= own_chunks(v_old, v_old.owner, tokens, bs, h, shared.popped(mm + 1), mm + 1));
                    if indexed {
                        assert(self.prefix_cache@ == pc_before.insert(path, new_block_id));
                    } else {
                        assert(self.prefix_cache@ == pc_before);
                    }
                    assert(self@.prefix == extend_prefix(v_old, v_old.prefix,
                        tokens,
                        bs,
                        h,
                        shared.popped(mm + 1),
                        mm + 1,
                    ));
                    assert(allocated_block_ids@ =~= hits + shared.popped(mm + 1));
                    assert forall|q: Seq<Seq<u32>>| #[trigger]
                        self.prefix_cache@.contains_key(q) implies self.prefix_cache@[q]
                        < self.total_blocks by {
                        if q != path {
                            assert(pc_before.contains_key(q));
                        }
                    }
                }
            }
            chunk_idx = chunk_idx + 1;
        }
        let ghost m = (tokens.len() / bs - h) as nat;
        proof {
            if chunk_idx <= h {
                assert(hits.take(h as int) =~= hits);
                assert(shared.claim_many(0, seq_id, true) == shared);
                assert(shared.popped(0) =~= Seq::<usize>::empty());
                assert(hits + shared.popped(0) =~= hits);
            }
            assert(self@.pool == shared.claim_many(m, seq_id, true));
            assert(self@.prefix == extend_prefix(v_old, v_old.prefix, tokens, bs, h, shared.popped(m), m));
            assert(self@.owner == own_chunks(v_old, v_old.owner, tokens, bs, h, shared.popped(m), m));
            assert(allocated_block_ids@ == hits + shared.popped(m));
            assert(m <= shared.free.len());
            assert forall|j: int| 0 <= j < pool0.free.len() implies #[trigger] pool0.free[j] < pool0.blocks.len() by {
                assert(old(self).free_stack@[j] < old(self).total_blocks);
            }
            shared.lemma_claim_many_free(m, seq_id, true);
        }
        let remainder = prompt_tokens.len() % block_size;
        if remainder > 0 {
            let ghost pool_m = self@.pool;
            let remainder_block_id = match self.claim_block_for(seq_id, false) {
                Ok(b) => b,
                Err(e) => {
                    proof {
                        let (v2, r2) = v_old.admit_prompt(seq_id, tokens, bs);
                        assert(shared.free.len() == m);
                        assert(v2.pool == self@.pool);
                        assert(v2.prefix == self@.prefix);
                        assert(v2.tables == self@.tables);
                    }
                    return Err(e);
                },
            };
            allocated_block_ids.push(remainder_block_id);
            proof {
                assert(remainder_block_id == shared.popped(m + 1)[m as int]);
                assert(allocated_block_ids@ =~= hits + shared.popped(m + 1));
                lemma_extend_prefix_congruent(v_old, v_old.prefix, tokens, bs, h, shared.popped(m), shared.popped(m + 1), m);
                lemma_own_chunks_congruent(v_old, v_old.owner, tokens, bs, h, shared.popped(m), shared.popped(m + 1), m);
            }
        }
        let ghost pre = self.page_tables@;
        let mut table = match self.page_tables.remove(&seq_id) {
            Some(t) => t,
            None => {
                return Err(MemoryError::SequenceNotFound(seq_id));
            },
        };
        assert(table.seq_id == seq_id);
        let ghost ids = allocated_block_ids@;
        proof {
            assert forall|j: int| 0 <= j < ids.len() implies #[trigger] ids[j] < self.total_blocks by {
                if j < hits.len() {
                    assert(hits[j] < self.total_blocks);
                } else {
                    let jj = j - hits.len();
                    assert(ids[j] == shared.free[shared.free.len() - 1 - jj]);
                    assert(shared.free == pool0.free);
                    assert(pool0.free[shared.free.len() - 1 - jj] < pool0.blocks.len());
                }
            }
        }
        table.physical_block_ids = allocated_block_ids;
        table.logical_tokens = prompt_tokens.len();
        self.page_tables.insert(seq_id, table);
        proof {
            assert forall|s: usize| #[trigger]
                self.page_tables@.contains_key(s) implies self.page_tables@[s].seq_id == s && forall|
                    j: int,
                |
                    0 <= j < self.page_tables@[s].physical_block_ids@.len()
                        ==> #[trigger] self.page_tables@[s].physical_block_ids@[j]
                        < self.total_blocks by {
                if s != seq_id {
                    assert(pre.contains_key(s));
                }
            }
            let (v2, r2) = v_old.admit_prompt(seq_id, tokens, bs);
            assert(self@.tables =~= v2.tables);
            assert(v2.pool == self@.pool);
            assert(v2.prefix == self@.prefix);
        }
        Ok(matched_cached_blocks)
    }

    /// Appends `num_new_tokens` tokens to a sequence. When they would be
    /// written into a partly filled block that another holder shares (after a
    /// fork), that block is first copied to a fresh one for this sequence;
    /// then the blocks it newly needs are claimed.
    pub fn append_tokens(&mut self, seq_id: usize, num_new_tokens: usize) -> (r: Result<(), MemoryError>)
        requires
            old(self).wf(),
            old(self)@.tables.contains_key(seq_id) ==> {
                let new_tokens = old(self)@.tables[seq_id].logical_tokens + num_new_tokens;
                &&& new_tokens <= usize::MAX
                &&& new_tokens > 0 ==> old(self)@.block_size > 0 && new_tokens + old(self)@.block_size
                    - 1 <= usize::MAX
            },
        ensures
            keeps_live_entries(old(self)@, final(self)@),
            final(self).wf(),
            final(self)@.pool.consistent(),
            (final(self)@, r) == old(self)@.append(seq_id, num_new_tokens),
    {
        proof {
            old(self).lemma_view_wf();
            crate::memory::accounting::lemma_append_keeps_live_entries(old(self)@, seq_id, num_new_tokens);
        }
        let block_size = self.block_size;
        let (old_tokens, partial) = match self.page_tables.get(&seq_id) {
            None => {
                return Err(MemoryError::SequenceNotFound(seq_id));
            },
            Some(table) => {
                let ids = &table.physical_block_ids;
                let partial = if block_size > 0 && table.logical_tokens % block_size != 0
                    && table.logical_tokens / block_size < ids.len() {
                    Some(ids[table.logical_tokens / block_size])
                } else {
                    None
                };
                (table.logical_tokens, partial)
            },
        };
        let new_tokens = old_tokens + num_new_tokens;
        let needed_blocks = if new_tokens == 0 {
            0
        } else {
            (new_tokens + (block_size - 1)) / block_size
        };
        assert(needed_blocks == blocks_needed(new_tokens as nat, block_size as nat));
        if needed_blocks > self.max_blocks_per_seq {
            return Err(MemoryError::CapacityExceeded);
        }
        proof {
            old(self).lemma_view_wf();
            assert(old(self).page_tables@.contains_key(seq_id));
        }
        if num_new_tokens > 0 {
            if let Some(shared_block) = partial {
                if self.physical_blocks[shared_block].ref_count > 1 {
                    let ghost v0 = self@;
                    proof {
                        assert(v0.cow_needed(seq_id, num_new_tokens));
                        if v0.pool.consistent() && v0.pool.free.len() > 0 {
                            crate::memory::accounting::lemma_claim_for_consistent(v0.pool, seq_id, false);
                            lemma_release_consistent(v0.pool.claim_for(seq_id, false), shared_block);
                        }
                    }
                    let fresh = self.claim_block_for(seq_id, false)?;
                    let freed = self.free_block(shared_block);
                    assert(freed is Ok);
                    let ghost pre = self.page_tables@;
                    proof {
                        assert(self@.tables.contains_key(seq_id));
                        assert(pre.contains_key(seq_id));
                        assert(pre[seq_id].physical_block_ids@ == v0.tables[seq_id].blocks);
                        assert(pre[seq_id].seq_id == seq_id);
                    }
                    let mut table = self.page_tables.remove(&seq_id).unwrap();
                    let idx = old_tokens / block_size;
                    table.physical_block_ids.set(idx, fresh);
                    self.page_tables.insert(seq_id, table);
                    proof {
                        assert forall|s: usize| #[trigger]
                            self.page_tables@.contains_key(s) implies self.page_tables@[s].seq_id == s && forall|
                                k: int,
                            |
                                0 <= k < self.page_tables@[s].physical_block_ids@.len()
                                    ==> #[trigger] self.page_tables@[s].physical_block_ids@[k]
                                    < self.total_blocks by {
                            assert(pre.contains_key(s));
                        }
                        assert(self@.tables =~= v0.copy_partial_block(seq_id).tables);
                        assert(self@ == v0.copy_partial_block(seq_id));
                    }
                }
            }
        }
        self.grow_sequence(seq_id, num_new_tokens)
    }

    /// Grows a sequence by `num_new_tokens` tokens, claiming the blocks it
    /// newly needs.
    #[verifier::loop_isolation(false)]
    fn grow_sequence(&mut self, seq_id: usize, num_new_tokens: usize) -> (r: Result<(), MemoryError>)
        requires
            old(self).wf(),
            old(self)@.tables.contains_key(seq_id) ==> {
                let new_tokens = old(self)@.tables[seq_id].logical_tokens + num_new_tokens;
                &&& new_tokens <= usize::MAX
                &&& new_tokens > 0 ==> old(self)@.block_size > 0 && new_tokens + old(self)@.block_size
                    - 1 <= usize::MAX
            },
        ensures
            final(self).wf(),
            final(self)@.pool.consistent(),
            (final(self)@, r) == old(self)@.grow(seq_id, num_new_tokens),
    {
        let block_size = self.block_size;
        let max_blocks = self.max_blocks_per_seq;
        let (old_tokens, current_block_count) = match self.page_tables.get(&seq_id) {
            None => {
                return Err(MemoryError::SequenceNotFound(seq_id));
            },
            Some(table) => (table.logical_tokens, table.physical_block_ids.len()),
        };
        let new_tokens = old_tokens + num_new_tokens;
        let needed_blocks = if new_tokens == 0 {
            0
        } else {
            (new_tokens + (block_size - 1)) / block_size
        };
        assert(needed_blocks == blocks_needed(new_tokens as nat, block_size as nat));
        if needed_blocks > max_blocks {
            return Err(MemoryError::CapacityExceeded);
        }
        let num_to_allocate = if needed_blocks > current_block_count {
            needed_blocks - current_block_count
        } else {
            0
        };
        let ghost pool0 = old(self)@.pool;
        proof {
            old(self).lemma_view_wf();
            if pool0.consistent() {
                lemma_claim_many_consistent(pool0, pool0.free.len(), seq_id, false);
                if num_to_allocate <= pool0.free.len() {
                    lemma_claim_many_consistent(pool0, num_to_allocate as nat, seq_id, false);
                }
            }
        }
        let mut new_blocks: Vec<usize> = Vec::new();
        let mut i: usize = 0;
        while i < num_to_allocate
            invariant
                self.wf(),
                0 <= i <= num_to_allocate,
                i <= pool0.free.len(),
                self@ == (ManagerView {
                    pool: pool0.claim_many(i as nat, seq_id, false),
                    owner: disown(old(self)@.owner, pool0.popped(i as nat), i as nat),
                    ..old(self)@
                }),
                new_blocks@ == pool0.popped(i as nat),
                forall|j: int| 0 <= j < new_blocks@.len() ==> #[trigger] new_blocks@[j] < self.total_blocks,
            decreases num_to_allocate - i,
        {
            proof {
                pool0.lemma_claim_many_free(i as nat, seq_id, false);
            }
            let r = self.claim_block_for(seq_id, false);
            match r {
                Err(e) => {
                    proof {
                        assert(i == pool0.free.len());
                    }
                    return Err(e);
                },
                Ok(b) => {
                    new_blocks.push(b);
                    proof {
                        assert(new_blocks@ =~= pool0.popped((i + 1) as nat));
                        lemma_disown_congruent(old(self)@.owner, pool0.popped(i as nat), pool0.popped((i + 1) as nat), i as nat);
                    }
                },
            }
            i = i + 1;
        }
        let ghost pre = self.page_tables@;
        assert(self@.tables.contains_key(seq_id));
        assert(pre.contains_key(seq_id));
        assert(pre[seq_id].seq_id == seq_id);
        let mut table = self.page_tables.remove(&seq_id).unwrap();
        let ghost old_ids = table.physical_block_ids@;
        let mut j: usize = 0;
        while j < new_blocks.len()
            invariant
                0 <= j <= new_blocks@.len(),
                table.seq_id == seq_id,
                table.physical_block_ids@ == old_ids + new_blocks@.take(j as int),
            decreases new_blocks@.len() - j,
        {
            table.physical_block_ids.push(new_blocks[j]);
            j = j + 1;
            assert(table.physical_block_ids@ =~= old_ids + new_blocks@.take(j as int));
        }
        assert(new_blocks@.take(j as int) =~= new_blocks@);
        table.logical_tokens = new_tokens;
        let ghost tab = table;
        self.page_tables.insert(seq_id, table);
        proof {
            assert(old(self).page_tables@.contains_key(seq_id));
            assert forall|s: usize| #[trigger]
                self.page_tables@.contains_key(s) implies self.page_tables@[s].seq_id == s && forall|
                    j: int,
                |
                    0 <= j < self.page_tables@[s].physical_block_ids@.len()
                        ==> #[trigger] self.page_tables@[s].physical_block_ids@[j]
                        < self.total_blocks by {
                if s != seq_id {
                    assert(pre.contains_key(s));
                } else {
                    assert forall|j: int| 0 <= j < tab.physical_block_ids@.len() implies #[trigger] tab.physical_block_ids@[j] < self.total_blocks by {
                        if j < old_ids.len() {
                            assert(old_ids[j] == pre[seq_id].physical_block_ids@[j]);
                        } else {
                            assert(tab.physical_block_ids@[j] == new_blocks@[j - old_ids.len()]);
                        }
                    }
                }
            }
            assert(self@.tables =~= old(self)@.tables.insert(
                seq_id,
                TableView {
                    logical_tokens: new_tokens,
                    blocks: old_ids + pool0.popped(num_to_allocate as nat),
                },
            ));
        }
        Ok(())
    }

    /// Gives a child sequence its own page table sharing every block of the
    /// parent's, each shared block gaining one reference per occurrence.
    /// A parent listing a block that holds no reference (one freed behind
    /// its back) is refused with `DoubleFree` for the first such block, and
    /// nothing changes: sharing it would revive a block on the free stack.
    #[verifier::loop_isolation(false)]
    pub fn fork_sequence_cow(&mut self, parent_seq_id: usize, child_seq_id: usize) -> (r: Result<
        (),
        MemoryError,
    >)
        requires
            old(self).wf(),
            old(self)@.tables.contains_key(parent_seq_id) ==> forall|b: usize|
                b < old(self)@.pool.blocks.len() ==> old(self)@.pool.blocks[b as int].ref_count
                    + #[trigger] occurrences(old(self)@.tables[parent_seq_id].blocks, b)
                    <= usize::MAX,
        ensures
            keeps_live_entries(old(self)@, final(self)@),
            final(self).wf(),
            final(self)@.pool.consistent(),
            !old(self)@.tables.contains_key(parent_seq_id) ==> r == Err::<(), MemoryError>(
                MemoryError::SequenceNotFound(parent_seq_id),
            ) && final(self)@ == old(self)@,
            old(self)@.tables.contains_key(parent_seq_id) ==> (first_unreferenced(
                old(self)@.pool,
                old(self)@.tables[parent_seq_id].blocks,
                0,
            ) matches Some(b) ==> r == Err::<(), MemoryError>(MemoryError::DoubleFree(b))
                && final(self)@ == old(self)@),
            old(self)@.tables.contains_key(parent_seq_id) && first_unreferenced(
                old(self)@.pool,
                old(self)@.tables[parent_seq_id].blocks,
                0,
            ) is None ==> r == Ok::<(), MemoryError>(())
                && final(self)@ == (ManagerView {
                pool: old(self)@.pool.bump_seq(old(self)@.tables[parent_seq_id].blocks),
                tables: old(self)@.tables.insert(child_seq_id, old(self)@.tables[parent_seq_id]),
                ..old(self)@
            }),
    {
        let (logical_tokens, ids) = match self.page_tables.get(&parent_seq_id) {
            None => {
                return Err(MemoryError::SequenceNotFound(parent_seq_id));
            },
            Some(t) => (t.logical_tokens, copy_ids(&t.physical_block_ids)),
        };
        let ghost pool0 = old(self)@.pool;
        assert(old(self).page_tables@.contains_key(parent_seq_id));
        proof {
            old(self).lemma_view_wf();
        }
        let mut k: usize = 0;
        while k < ids.len()
            invariant
                0 <= k <= ids@.len(),
                ids@ == old(self)@.tables[parent_seq_id].blocks,
                self@ == old(self)@,
                self.wf(),
                forall|jj: int| 0 <= jj < ids@.len() ==> #[trigger] ids@[jj] < self.total_blocks,
                first_unreferenced(pool0, ids@, 0) == first_unreferenced(pool0, ids@, k as nat),
            decreases ids@.len() - k,
        {
            let b = ids[k];
            if self.physical_blocks[b].ref_count == 0 {
                return Err(MemoryError::DoubleFree(b));
            }
            k = k + 1;
        }
        proof {
            lemma_first_unreferenced(pool0, ids@, 0);
            assert(all_live(pool0, ids@));
            pool0.lemma_bump_seq(ids@);
            if pool0.consistent() {
                lemma_bump_seq_consistent(pool0, ids@);
            }
        }
        let mut j: usize = 0;
        while j < ids.len()
            invariant
                self.wf(),
                0 <= j <= ids@.len(),
                ids@ == old(self)@.tables[parent_seq_id].blocks,
                forall|k: int| 0 <= k < ids@.len() ==> #[trigger] ids@[k] < self.total_blocks,
                forall|b: usize|
                    b < pool0.blocks.len() ==> pool0.blocks[b as int].ref_count
                        + #[trigger] occurrences(ids@, b) <= usize::MAX,
                self@ == (ManagerView { pool: pool0.bump_seq(ids@.take(j as int)), ..old(self)@ }),
            decreases ids@.len() - j,
        {
            let b = ids[j];
            proof {
                assert forall|bb: usize|
                    bb < pool0.blocks.len() implies pool0.blocks[bb as int].ref_count
                        + #[trigger] occurrences(ids@.take(j as int), bb) <= usize::MAX by {
                    lemma_occurrences_prefix(ids@, j as int, bb);
                }
                pool0.lemma_bump_seq(ids@.take(j as int));
                lemma_occurrences_take(ids@, j as int, b);
                lemma_occurrences_prefix(ids@, j as int + 1, b);
                assert(ids@.take(j as int + 1).drop_last() =~= ids@.take(j as int));
            }
            let mut block = self.physical_blocks[b];
            block.ref_count = block.ref_count + 1;
            self.physical_blocks.set(b, block);
            j = j + 1;
            proof {
                assert(self@.pool.blocks =~= pool0.bump_seq(ids@.take(j as int)).blocks);
            }
        }
        assert(ids@.take(j as int) =~= ids@);
        let ghost pre = self.page_tables@;
        self.page_tables.insert(
            child_seq_id,
            SequencePageTable { seq_id: child_seq_id, logical_tokens, physical_block_ids: ids },
        );
        proof {
            assert forall|s: usize| #[trigger]
                self.page_tables@.contains_key(s) implies self.page_tables@[s].seq_id == s && forall|
                    j: int,
                |
                    0 <= j < self.page_tables@[s].physical_block_ids@.len()
                        ==> #[trigger] self.page_tables@[s].physical_block_ids@[j]
                        < self.total_blocks by {
                if s != child_seq_id {
                    assert(pre.contains_key(s));
                }
            }
            assert(self@.tables =~= old(self)@.tables.insert(child_seq_id, old(self)@.tables[parent_seq_id]));
        }
        Ok(())
    }

    /// Sets the speculative flag of a block; out-of-range ids are ignored.
    pub fn set_block_speculative(&mut self, block_id: usize, is_speculative: bool)
        requires
            old(self).wf(),
        ensures
            keeps_live_entries(old(self)@, final(self)@),
            final(self).wf(),
            block_id >= old(self)@.total_blocks ==> final(self)@ == old(self)@,
            block_id < old(self)@.total_blocks ==> final(self)@ == (ManagerView {
                pool: PoolView {
                    blocks: old(self)@.pool.blocks.update(
                        block_id as int,
                        PhysicalBlock { is_speculative, ..old(self)@.pool.blocks[block_id as int] },
                    ),
                    free: old(self)@.pool.free,
                },
                ..old(self)@
            }),
            final(self)@.pool.consistent(),
    {
        if block_id < self.total_blocks {
            let mut block = self.physical_blocks[block_id];
            block.is_speculative = is_speculative;
            self.physical_blocks.set(block_id, block);
        }
    }

    /// The blocks of a sequence's page table, if it has one.
    pub fn get_sequence_blocks(&self, seq_id: usize) -> (r: Option<Vec<usize>>)
        ensures
            r is Some <==> self@.tables.contains_key(seq_id),
            r is Some ==> r.unwrap()@ == self@.tables[seq_id].blocks,
    {
        match self.page_tables.get(&seq_id) {
            Some(t) => Some(copy_ids(&t.physical_block_ids)),
            None => None,
        }
    }

    /// The number of tokens a sequence's page table covers, if it has one.
    pub fn sequence_token_count(&self, seq_id: usize) -> (r: Option<usize>)
        ensures
            r is Some <==> self@.tables.contains_key(seq_id),
            r is Some ==> r.unwrap() == self@.tables[seq_id].logical_tokens,
    {
        match self.page_tables.get(&seq_id) {
            Some(t) => Some(t.logical_tokens),
            None => None,
        }
    }

    /// A telemetry record for every physical block, in block order.
    pub fn get_block_inspect_info(&self) -> (r: Vec<BlockInspectInfo>)
        ensures
            r@.len() == self@.pool.blocks.len(),
            forall|i: int|
                0 <= i < r@.len() ==> {
                    let b = #[trigger] self@.pool.blocks[i];
                    r@[i] == BlockInspectInfo {
                        block_id: b.block_id,
                        ref_count: b.ref_count,
                        is_free: b.is_free,
                        mapped_seq_id: b.mapped_seq_id,
                        is_prefix_cached: b.is_prefix_cached,
                        is_speculative: b.is_speculative,
                    }
                },
    {
        let mut out: Vec<BlockInspectInfo> = Vec::with_capacity(self.physical_blocks.len());
        let mut i: usize = 0;
        while i < self.physical_blocks.len()
            invariant
                0 <= i <= self.physical_blocks@.len(),
                out@.len() == i,
                forall|k: int|
                    0 <= k < i ==> {
                        let b = #[trigger] self.physical_blocks@[k];
                        out@[k] == BlockInspectInfo {
                            block_id: b.block_id,
                            ref_count: b.ref_count,
                            is_free: b.is_free,
                            mapped_seq_id: b.mapped_seq_id,
                            is_prefix_cached: b.is_prefix_cached,
                            is_speculative: b.is_speculative,
                        }
                    },
            decreases self.physical_blocks@.len() - i,
        {
            let b = self.physical_blocks[i];
            out.push(
                BlockInspectInfo {
                    block_id: b.block_id,
                    ref_count: b.ref_count,
                    is_free: b.is_free,
                    mapped_seq_id: b.mapped_seq_id,
                    is_prefix_cached: b.is_prefix_cached,
                    is_speculative: b.is_speculative,
                },
            );
            i = i + 1;
        }
        out
    }

    /// Flattens the page tables of `active_seq_ids` into a row-major table of
    /// `max_blocks_per_seq` columns (unused entries -1) and a list of token counts.
    #[verifier::loop_isolation(false)]
    pub fn export_cuda_block_tables(&self, active_seq_ids: &[usize]) -> (r: (Vec<i32>, Vec<i32>))
        requires
            active_seq_ids@.len() * self@.max_blocks_per_seq <= usize::MAX,
        ensures
            r.0@.len() == active_seq_ids@.len() * self@.max_blocks_per_seq,
            forall|i: int, j: int|
                0 <= i < active_seq_ids@.len() && 0 <= j < self@.max_blocks_per_seq ==> #[trigger] r.0@[flat_index(
                    i,
                    j,
                    self@.max_blocks_per_seq as int,
                )] == self@.cuda_entry(active_seq_ids@[i], j),
            forall|i: int, j: int|
                0 <= i < active_seq_ids@.len() && 0 <= j < self@.max_blocks_per_seq ==> #[trigger] r.0@[flat_index(
                    i,
                    j,
                    self@.max_blocks_per_seq as int,
                )] == if self@.tables.contains_key(active_seq_ids@[i]) && j < self@.tables[active_seq_ids@[i]].blocks.len() {
                    self@.tables[active_seq_ids@[i]].blocks[j] as i32
                } else {
                    -1i32
                },
            r.1@.len() == active_seq_ids@.len(),
            forall|i: int|
                0 <= i < active_seq_ids@.len() ==> #[trigger] r.1@[i] == self@.cuda_len(active_seq_ids@[i]),
            forall|i: int|
                0 <= i < active_seq_ids@.len() ==> #[trigger] r.1@[i] == if self@.tables.contains_key(active_seq_ids@[i]) {
                    self@.tables[active_seq_ids@[i]].logical_tokens as i32
                } else {
                    0i32
                },
    {
        let width = self.max_blocks_per_seq;
        let rows = active_seq_ids.len();
        let total_len = rows * width;
        let ghost w = width as int;
        let mut flat_tables: Vec<i32> = Vec::new();
        while flat_tables.len() < total_len
            invariant
                flat_tables@.len() <= total_len,
                forall|k: int| 0 <= k < flat_tables@.len() ==> #[trigger] flat_tables@[k] == -1i32,
            decreases total_len - flat_tables@.len(),
        {
            flat_tables.push(-1i32);
        }
        let mut seq_lens: Vec<i32> = Vec::new();
        let mut i: usize = 0;
        proof {
            assert forall|ii: int, j: int|
                0 <= ii < rows && 0 <= j < w implies #[trigger] flat_tables@[flat_index(ii, j, w)] == -1i32 by {
                lemma_flat_index(ii, j, w, rows as int);
            }
        }
        while i < rows
            invariant
                0 <= i <= rows,
                flat_tables@.len() == total_len,
                seq_lens@.len() == i,
                forall|ii: int| 0 <= ii < i ==> #[trigger] seq_lens@[ii] == self@.cuda_len(active_seq_ids@[ii]),
                forall|ii: int, j: int|
                    0 <= ii < rows && 0 <= j < w ==> #[trigger] flat_tables@[flat_index(ii, j, w)] == if ii < i {
                        self@.cuda_entry(active_seq_ids@[ii], j)
                    } else {
                        -1i32
                    },
            decreases rows - i,
        {
            let seq_id = active_seq_ids[i];
            match self.page_tables.get(&seq_id) {
                Some(table) => {
                    seq_lens.push(table.logical_tokens as i32);
                    let ids = &table.physical_block_ids;
                    let mut j: usize = 0;
                    while j < ids.len()
                        invariant
                            0 <= j <= ids@.len(),
                            flat_tables@.len() == total_len,
                            ids@ == self@.tables[seq_id].blocks,
                            self@.tables.contains_key(seq_id),
                            forall|ii: int, jj: int|
                                0 <= ii < rows && 0 <= jj < w ==> #[trigger] flat_tables@[flat_index(ii, jj, w)] == if ii < i || (ii == i && jj < j) {
                                    self@.cuda_entry(active_seq_ids@[ii], jj)
                                } else {
                                    -1i32
                                },
                        decreases ids@.len() - j,
                    {
                        if j < width {
                            proof {
                                lemma_flat_index(i as int, j as int, w, rows as int);
                            }
                            let ghost before = flat_tables@;
                            flat_tables.set(i * width + j, ids[j] as i32);
                            proof {
                                assert forall|ii: int, jj: int|
                                    0 <= ii < rows && 0 <= jj < w implies #[trigger] flat_tables@[flat_index(ii, jj, w)] == if ii < i || (ii == i && jj < j + 1) {
                                        self@.cuda_entry(active_seq_ids@[ii], jj)
                                    } else {
                                        -1i32
                                    } by {
                                    lemma_flat_index(ii, jj, w, rows as int);
                                    if ii != i || jj != j {
                                        assert(flat_index(ii, jj, w) != flat_index(i as int, j as int, w));
                                        assert(flat_tables@[flat_index(ii, jj, w)] == before[flat_index(ii, jj, w)]);
                                    }
                                }
                            }
                        }
                        j = j + 1;
                    }
                    proof {
                        assert forall|ii: int, jj: int|
                            0 <= ii < rows && 0 <= jj < w implies #[trigger] flat_tables@[flat_index(ii, jj, w)] == if ii < i + 1 {
                                self@.cuda_entry(active_seq_ids@[ii], jj)
                            } else {
                                -1i32
                            } by {
                            if ii == i && jj >= j {
                                assert(self@.cuda_entry(active_seq_ids@[ii], jj) == -1i32);
                            }
                        }
                    }
                },
                None => {
                    seq_lens.push(0);
                },
            }
            i = i + 1;
        }
        (flat_tables, seq_lens)
    }

    /// Number of entries on the free stack.
    pub fn free_blocks_count(&self) -> (r: usize)
        ensures
            r == self@.pool.free.len(),
    {
        self.free_stack.len()
    }

    /// Number of blocks not on the free stack.
    pub fn allocated_blocks_count(&self) -> (r: usize)
        requires
            self.wf(),
        ensures
            r == self@.total_blocks - self@.pool.free.len(),
            r + self@.pool.free.len() == self@.total_blocks,
    {
        proof {
            self.lemma_view_wf();
            crate::memory::laws::law_consistent_pool_accounting(self@);
        }
        self.total_blocks - self.free_stack.len()
    }
}

} // verus!
