//! Abstract model of the block manager: its view, the transitions its
//! operations perform on that view, and the facts about them.

use vstd::prelude::*;
use crate::memory::block_manager::{MemoryError, PhysicalBlock};
use crate::memory::radix::prefix_closed;
use crate::memory::accounting::free_in_range;

verus! {

/// Abstract state of the block pool: per-block metadata and the free stack
/// (whose last element is handed out first).
pub struct PoolView {
    pub blocks: Seq<PhysicalBlock>,
    pub free: Seq<usize>,
}

/// Abstract page table: token count and block list.
pub struct TableView {
    pub logical_tokens: usize,
    pub blocks: Seq<usize>,
}

/// Abstract state of the block manager.
pub struct ManagerView {
    pub total_blocks: usize,
    pub block_size: usize,
    pub max_blocks_per_seq: usize,
    /// Prompts looked up in the prefix index so far.
    pub lookups: usize,
    /// Full chunks found in the prefix index so far.
    pub hits: usize,
    pub pool: PoolView,
    /// For each block, the chunk path whose index entry it was claimed for
    /// (none for blocks claimed for any other use).
    pub owner: Seq<Option<Seq<Seq<u32>>>>,
    pub tables: Map<usize, TableView>,
    /// Chunk paths indexed for prefix sharing, each mapped to its block.
    pub prefix: Map<Seq<Seq<u32>>, usize>,
}

/// Number of times `b` occurs in `s`.
pub open spec fn occurrences(s: Seq<usize>, b: usize) -> nat
    decreases s.len(),
{
    if s.len() == 0 {
        0
    } else {
        occurrences(s.drop_last(), b) + if s.last() == b { 1nat } else { 0nat }
    }
}

/// Number of blocks a prompt of `len` tokens takes: one per full chunk, and
/// one for a trailing partial chunk.
pub open spec fn prompt_blocks(len: nat, bs: nat) -> nat {
    len / bs + if len % bs > 0 { 1nat } else { 0nat }
}

/// Number of blocks needed to hold `tokens` tokens, `bs` tokens per block.
pub open spec fn blocks_needed(tokens: nat, bs: nat) -> nat {
    if tokens == 0 { 0 } else { ((tokens + bs - 1) as nat / bs) as nat }
}

impl PoolView {
    /// State of a block once it is handed out by the allocator.
    pub open spec fn claimed(b: PhysicalBlock) -> PhysicalBlock {
        PhysicalBlock {
            block_id: b.block_id,
            ref_count: 1,
            is_free: false,
            mapped_seq_id: b.mapped_seq_id,
            is_prefix_cached: false,
            is_speculative: false,
        }
    }

    /// Pops the top of the free stack and marks that block referenced once.
    pub open spec fn claim_top(self) -> PoolView {
        let b = self.free.last();
        PoolView {
            blocks: self.blocks.update(b as int, Self::claimed(self.blocks[b as int])),
            free: self.free.drop_last(),
        }
    }

    /// Pops the top of the free stack and assigns it to sequence `seq`.
    pub open spec fn claim_for(self, seq: usize, cached: bool) -> PoolView {
        let b = self.free.last();
        let old = self.blocks[b as int];
        PoolView {
            blocks: self.blocks.update(
                b as int,
                PhysicalBlock {
                    block_id: old.block_id,
                    ref_count: 1,
                    is_free: false,
                    mapped_seq_id: Some(seq),
                    is_prefix_cached: cached,
                    is_speculative: false,
                },
            ),
            free: self.free.drop_last(),
        }
    }

    /// `k` successive `claim_for` steps.
    pub open spec fn claim_many(self, k: nat, seq: usize, cached: bool) -> PoolView
        decreases k,
    {
        if k == 0 {
            self
        } else {
            self.claim_many((k - 1) as nat, seq, cached).claim_for(seq, cached)
        }
    }

    /// The blocks that `k` pops take from the free stack, in pop order.
    pub open spec fn popped(self, k: nat) -> Seq<usize> {
        Seq::new(k, |i: int| self.free[self.free.len() - 1 - i])
    }

    /// Whether `b` names a block holding at least one reference.
    pub open spec fn can_release(self, b: usize) -> bool {
        b < self.blocks.len() && self.blocks[b as int].ref_count > 0
    }

    /// Drops one reference to `b`; at zero the block is reset and pushed on the free stack.
    pub open spec fn release(self, b: usize) -> PoolView {
        let old = self.blocks[b as int];
        if old.ref_count == 1 {
            PoolView {
                blocks: self.blocks.update(
                    b as int,
                    PhysicalBlock {
                        block_id: old.block_id,
                        ref_count: 0,
                        is_free: true,
                        mapped_seq_id: None,
                        is_prefix_cached: false,
                        is_speculative: false,
                    },
                ),
                free: self.free.push(b),
            }
        } else {
            PoolView {
                blocks: self.blocks.update(
                    b as int,
                    PhysicalBlock { ref_count: (old.ref_count - 1) as usize, ..old },
                ),
                free: self.free,
            }
        }
    }

    /// Releases the blocks of `list` in order, stopping at the first block that
    /// cannot be released; returns the state reached and that block, if any.
    pub open spec fn release_seq(self, list: Seq<usize>) -> (PoolView, Option<usize>)
        decreases list.len(),
    {
        if list.len() == 0 {
            (self, None)
        } else if !self.can_release(list[0]) {
            (self, Some(list[0]))
        } else {
            self.release(list[0]).release_seq(list.drop_first())
        }
    }

    /// Adds one reference to `b`.
    pub open spec fn bump(self, b: usize) -> PoolView {
        let old = self.blocks[b as int];
        PoolView {
            blocks: self.blocks.update(
                b as int,
                PhysicalBlock { ref_count: (old.ref_count + 1) as usize, ..old },
            ),
            free: self.free,
        }
    }

    /// Adds one reference per occurrence in `list`.
    pub open spec fn bump_seq(self, list: Seq<usize>) -> PoolView
        decreases list.len(),
    {
        if list.len() == 0 {
            self
        } else {
            self.bump_seq(list.drop_last()).bump(list.last())
        }
    }

    /// Adds one reference to `b` and marks it as a shared prefix block of `seq`.
    pub open spec fn share(self, b: usize, seq: usize) -> PoolView {
        let old = self.blocks[b as int];
        PoolView {
            blocks: self.blocks.update(
                b as int,
                PhysicalBlock {
                    ref_count: (old.ref_count + 1) as usize,
                    is_prefix_cached: true,
                    mapped_seq_id: Some(seq),
                    ..old
                },
            ),
            free: self.free,
        }
    }

    /// `share` for each block of `list`, in order.
    pub open spec fn share_seq(self, list: Seq<usize>, seq: usize) -> PoolView
        decreases list.len(),
    {
        if list.len() == 0 {
            self
        } else {
            self.share_seq(list.drop_last(), seq).share(list.last(), seq)
        }
    }

    /// Free-stack accounting: no block is listed twice, a block is listed
    /// exactly when it holds no reference, and exactly those blocks are
    /// flagged free.
    pub open spec fn consistent(self) -> bool {
        &&& self.free.no_duplicates()
        &&& forall|b: usize|
            b < self.blocks.len() ==> (#[trigger] self.free.contains(b) <==> self.blocks[
                b as int
            ].ref_count == 0)
        &&& forall|b: usize|
            b < self.blocks.len() ==> (#[trigger] self.blocks[b as int].is_free <==> self.blocks[
                b as int
            ].ref_count == 0)
    }
}

/// Tokens-per-block chunk `i` of `tokens`.
pub open spec fn chunk_of(tokens: Seq<u32>, bs: nat, i: int) -> Seq<u32> {
    tokens.subrange(i * bs, (i + 1) * bs)
}

/// The first `n` full chunks of `tokens`.
pub open spec fn chunk_path(tokens: Seq<u32>, bs: nat, n: nat) -> Seq<Seq<u32>> {
    Seq::new(n, |i: int| chunk_of(tokens, bs, i))
}

/// Whether the index records path `p` with a block that still holds a
/// reference and was claimed for this very path (so it still caches the
/// path's last chunk, and has not been reused since it was freed).
pub open spec fn live_entry(v: ManagerView, p: Seq<Seq<u32>>) -> bool {
    &&& v.prefix.contains_key(p)
    &&& v.prefix[p] < v.pool.blocks.len()
    &&& v.pool.blocks[v.prefix[p] as int].ref_count > 0
    &&& v.prefix[p] < v.owner.len()
    &&& v.owner[v.prefix[p] as int] == Some(p)
}

/// Number of leading full chunks of `tokens` whose paths are all live
/// entries, from chunk `i` on.
pub open spec fn depth_from(v: ManagerView, tokens: Seq<u32>, bs: nat, i: nat) -> nat
    decreases tokens.len() / bs - i,
{
    if bs > 0 && i < tokens.len() / bs && live_entry(v, chunk_path(tokens, bs, i + 1)) {
        depth_from(v, tokens, bs, i + 1)
    } else {
        i
    }
}

/// Number of leading full chunks of `tokens` found in the prefix index as
/// live entries: entries whose blocks were freed or reused are not matched.
pub open spec fn matched_depth(v: ManagerView, tokens: Seq<u32>, bs: nat) -> nat {
    depth_from(v, tokens, bs, 0)
}

/// The blocks recorded for the matched chunk paths, in order.
pub open spec fn hit_blocks(v: ManagerView, tokens: Seq<u32>, bs: nat) -> Seq<usize> {
    Seq::new(matched_depth(v, tokens, bs), |i: int| v.prefix[chunk_path(tokens, bs, (i + 1) as nat)])
}

/// `owner` after the blocks `list[0..k]` are claimed for uses other than the index.
pub open spec fn disown(owner: Seq<Option<Seq<Seq<u32>>>>, list: Seq<usize>, k: nat) -> Seq<Option<Seq<Seq<u32>>>>
    decreases k,
{
    if k == 0 {
        owner
    } else {
        disown(owner, list, (k - 1) as nat).update(list[k - 1] as int, None)
    }
}

/// The prefix index after the `m` chunk paths following the first `h` get
/// the blocks of `popped`: each path that is a live entry of `v0` keeps its
/// entry, and every other one is recorded with its block.
pub open spec fn extend_prefix(
    v0: ManagerView,
    prefix: Map<Seq<Seq<u32>>, usize>,
    tokens: Seq<u32>,
    bs: nat,
    h: nat,
    popped: Seq<usize>,
    m: nat,
) -> Map<Seq<Seq<u32>>, usize>
    decreases m,
{
    if m == 0 {
        prefix
    } else {
        let rest = extend_prefix(v0, prefix, tokens, bs, h, popped, (m - 1) as nat);
        let p = chunk_path(tokens, bs, h + m);
        if live_entry(v0, p) {
            rest
        } else {
            rest.insert(p, popped[m - 1])
        }
    }
}

/// `owner` after the blocks `popped[0..m]` are claimed for the chunk paths
/// following the first `h`, in order: a block recorded in the index owns its
/// path; a block whose path was already a live entry of `v0` owns none.
pub open spec fn own_chunks(
    v0: ManagerView,
    owner: Seq<Option<Seq<Seq<u32>>>>,
    tokens: Seq<u32>,
    bs: nat,
    h: nat,
    popped: Seq<usize>,
    m: nat,
) -> Seq<Option<Seq<Seq<u32>>>>
    decreases m,
{
    if m == 0 {
        owner
    } else {
        let p = chunk_path(tokens, bs, h + m);
        own_chunks(v0, owner, tokens, bs, h, popped, (m - 1) as nat).update(
            popped[m - 1] as int,
            if live_entry(v0, p) { None } else { Some(p) },
        )
    }
}


pub proof fn lemma_occurrences_take(s: Seq<usize>, j: int, b: usize)
    requires
        0 <= j < s.len(),
    ensures
        occurrences(s.take(j + 1), b) == occurrences(s.take(j), b) + if s[j] == b { 1nat } else { 0nat },
{
    assert(s.take(j + 1).drop_last() =~= s.take(j));
}

pub proof fn lemma_occurrences_prefix(s: Seq<usize>, j: int, b: usize)
    requires
        0 <= j <= s.len(),
    ensures
        occurrences(s.take(j), b) <= occurrences(s, b),
    decreases s.len() - j,
{
    if j < s.len() {
        lemma_occurrences_take(s, j, b);
        lemma_occurrences_prefix(s, j + 1, b);
    } else {
        assert(s.take(j) =~= s);
    }
}

impl PoolView {
    /// Pops leave the bottom of the free stack.
    pub proof fn lemma_claim_many_free(self, k: nat, seq: usize, cached: bool)
        requires
            k <= self.free.len(),
            forall|j: int| 0 <= j < self.free.len() ==> #[trigger] self.free[j] < self.blocks.len(),
        ensures
            self.claim_many(k, seq, cached).free == self.free.take(self.free.len() - k),
            self.claim_many(k, seq, cached).blocks.len() == self.blocks.len(),
        decreases k,
    {
        if k > 0 {
            self.lemma_claim_many_free((k - 1) as nat, seq, cached);
            assert(self.free.take(self.free.len() - (k - 1)).drop_last() =~= self.free.take(
                self.free.len() - k,
            ));
        } else {
            assert(self.free.take(self.free.len() as int) =~= self.free);
        }
    }

    /// Reference counts after `bump_seq`.
    pub proof fn lemma_bump_seq(self, list: Seq<usize>)
        requires
            forall|j: int| 0 <= j < list.len() ==> #[trigger] list[j] < self.blocks.len(),
            forall|b: usize|
                b < self.blocks.len() ==> self.blocks[b as int].ref_count + #[trigger] occurrences(
                    list,
                    b,
                ) <= usize::MAX,
        ensures
            self.bump_seq(list).free == self.free,
            self.bump_seq(list).blocks.len() == self.blocks.len(),
            forall|b: usize|
                b < self.blocks.len() ==> #[trigger] self.bump_seq(list).blocks[b as int] == (
                PhysicalBlock {
                    ref_count: (self.blocks[b as int].ref_count + occurrences(list, b)) as usize,
                    ..self.blocks[b as int]
                }),
        decreases list.len(),
    {
        if list.len() > 0 {
            let init = list.drop_last();
            assert forall|b: usize|
                b < self.blocks.len() implies self.blocks[b as int].ref_count + #[trigger] occurrences(
                init,
                b,
            ) <= usize::MAX by {
                assert(occurrences(list, b) >= occurrences(init, b));
            }
            self.lemma_bump_seq(init);
            let p = self.bump_seq(init);
            let last = list.last();
            assert(list[list.len() - 1] < self.blocks.len());
            assert forall|b: usize|
                b < self.blocks.len() implies #[trigger] self.bump_seq(list).blocks[b as int] == (
                PhysicalBlock {
                    ref_count: (self.blocks[b as int].ref_count + occurrences(list, b)) as usize,
                    ..self.blocks[b as int]
                }) by {
                assert(self.bump_seq(list) == p.bump(last));
                assert(occurrences(list, b) == occurrences(init, b) + if last
                    == b { 1nat } else { 0nat });
                assert(self.blocks[b as int].ref_count + occurrences(list, b) <= usize::MAX);
                assert(p.blocks[b as int].ref_count == self.blocks[b as int].ref_count + occurrences(init, b));
            }
        }
    }
}

/// The matched depth lies between `i` and the number of full chunks; every
/// path up to it is indexed and the next one, if any, is not.
pub proof fn lemma_depth_from(v: ManagerView, tokens: Seq<u32>, bs: nat, i: nat)
    requires
        bs > 0,
        i <= tokens.len() / bs,
    ensures
        i <= depth_from(v, tokens, bs, i) <= tokens.len() / bs,
        forall|j: nat|
            i < j <= depth_from(v, tokens, bs, i) ==> #[trigger] live_entry(v, chunk_path(tokens, bs, j)),
        depth_from(v, tokens, bs, i) < tokens.len() / bs ==> !live_entry(
            v,
            chunk_path(tokens, bs, depth_from(v, tokens, bs, i) + 1),
        ),
    decreases tokens.len() / bs - i,
{
    if i < tokens.len() / bs && live_entry(v, chunk_path(tokens, bs, i + 1)) {
        lemma_depth_from(v, tokens, bs, i + 1);
    }
}

/// Facts about the matched depth of a prompt: the matched blocks are live.
pub proof fn lemma_matched_depth(v: ManagerView, tokens: Seq<u32>, bs: nat)
    requires
        bs > 0,
    ensures
        matched_depth(v, tokens, bs) <= tokens.len() / bs,
        forall|j: nat|
            1 <= j <= matched_depth(v, tokens, bs) ==> #[trigger] live_entry(v, chunk_path(tokens, bs, j)),
        matched_depth(v, tokens, bs) < tokens.len() / bs ==> !live_entry(
            v,
            chunk_path(tokens, bs, matched_depth(v, tokens, bs) + 1),
        ),
        forall|j: int|
            0 <= j < hit_blocks(v, tokens, bs).len() ==> #[trigger] hit_blocks(v, tokens, bs)[j]
                < v.pool.blocks.len() && v.pool.blocks[hit_blocks(v, tokens, bs)[j] as int].ref_count > 0,
{
    lemma_depth_from(v, tokens, bs, 0);
    let hits = hit_blocks(v, tokens, bs);
    assert forall|j: int| 0 <= j < hits.len() implies #[trigger] hits[j] < v.pool.blocks.len()
        && v.pool.blocks[hits[j] as int].ref_count > 0 by {
        assert(live_entry(v, chunk_path(tokens, bs, (j + 1) as nat)));
    }
}

/// Length of `own_chunks` and `disown`.
pub proof fn lemma_owner_len(
    v0: ManagerView,
    owner: Seq<Option<Seq<Seq<u32>>>>,
    tokens: Seq<u32>,
    bs: nat,
    h: nat,
    popped: Seq<usize>,
    m: nat,
)
    requires
        forall|j: int| 0 <= j < m ==> #[trigger] popped[j] < owner.len(),
    ensures
        own_chunks(v0, owner, tokens, bs, h, popped, m).len() == owner.len(),
        disown(owner, popped, m).len() == owner.len(),
    decreases m,
{
    if m > 0 {
        lemma_owner_len(v0, owner, tokens, bs, h, popped, (m - 1) as nat);
    }
}

/// Chunk paths of a prompt are prefixes of one another.
pub proof fn lemma_chunk_path_take(tokens: Seq<u32>, bs: nat, j: nat, k: nat)
    requires
        k <= j,
    ensures
        chunk_path(tokens, bs, j).take(k as int) == chunk_path(tokens, bs, k),
{
    assert(chunk_path(tokens, bs, j).take(k as int) =~= chunk_path(tokens, bs, k));
}

/// `extend_prefix` keeps the entries whose paths it does not add: those of
/// other lengths, and the live entries of `v0`.
pub proof fn lemma_extend_prefix_old(
    v0: ManagerView,
    prefix: Map<Seq<Seq<u32>>, usize>,
    tokens: Seq<u32>,
    bs: nat,
    h: nat,
    popped: Seq<usize>,
    m: nat,
    p: Seq<Seq<u32>>,
)
    requires
        prefix.contains_key(p),
        !(h < p.len() <= h + m) || live_entry(v0, p),
    ensures
        extend_prefix(v0, prefix, tokens, bs, h, popped, m).contains_key(p),
        extend_prefix(v0, prefix, tokens, bs, h, popped, m)[p] == prefix[p],
    decreases m,
{
    if m > 0 {
        lemma_extend_prefix_old(v0, prefix, tokens, bs, h, popped, (m - 1) as nat, p);
        assert(chunk_path(tokens, bs, h + m).len() == h + m);
    }
}

/// `extend_prefix` records the `j`-th path after `h` with `popped[j - 1]`,
/// unless that path was a live entry of `v0`.
pub proof fn lemma_extend_prefix_new(
    v0: ManagerView,
    prefix: Map<Seq<Seq<u32>>, usize>,
    tokens: Seq<u32>,
    bs: nat,
    h: nat,
    popped: Seq<usize>,
    m: nat,
    j: nat,
)
    requires
        1 <= j <= m,
        !live_entry(v0, chunk_path(tokens, bs, h + j)),
    ensures
        extend_prefix(v0, prefix, tokens, bs, h, popped, m).contains_key(chunk_path(tokens, bs, h + j)),
        extend_prefix(v0, prefix, tokens, bs, h, popped, m)[chunk_path(tokens, bs, h + j)] == popped[j - 1],
    decreases m,
{
    if j < m {
        lemma_extend_prefix_new(v0, prefix, tokens, bs, h, popped, (m - 1) as nat, j);
        assert(chunk_path(tokens, bs, h + j).len() == h + j);
        assert(chunk_path(tokens, bs, h + m).len() == h + m);
    }
}

/// `extend_prefix` changes no entry of a length outside `h + 1 ..= h + m`.
pub proof fn lemma_extend_prefix_frame(
    v0: ManagerView,
    prefix: Map<Seq<Seq<u32>>, usize>,
    tokens: Seq<u32>,
    bs: nat,
    h: nat,
    popped: Seq<usize>,
    m: nat,
    p: Seq<Seq<u32>>,
)
    requires
        !(h < p.len() <= h + m),
    ensures
        extend_prefix(v0, prefix, tokens, bs, h, popped, m).contains_key(p) == prefix.contains_key(p),
        prefix.contains_key(p) ==> extend_prefix(v0, prefix, tokens, bs, h, popped, m)[p] == prefix[p],
    decreases m,
{
    if m > 0 {
        lemma_extend_prefix_frame(v0, prefix, tokens, bs, h, popped, (m - 1) as nat, p);
        assert(chunk_path(tokens, bs, h + m).len() == h + m);
    }
}

/// Reference counts after `k` claims: the claimed blocks hold one
/// reference, the others keep theirs.
pub proof fn lemma_claim_many_refs(p: PoolView, k: nat, seq: usize, cached: bool)
    requires
        k <= p.free.len(),
        free_in_range(p),
    ensures
        p.claim_many(k, seq, cached).blocks.len() == p.blocks.len(),
        p.claim_many(k, seq, cached).free == p.free.take(p.free.len() - k),
        forall|b: usize|
            b < p.blocks.len() ==> (#[trigger] p.claim_many(k, seq, cached).blocks[b as int]).ref_count
                == if p.popped(k).contains(b) {
                1
            } else {
                p.blocks[b as int].ref_count
            },
    decreases k,
{
    p.lemma_claim_many_free(k, seq, cached);
    if k > 0 {
        let k1 = (k - 1) as nat;
        lemma_claim_many_refs(p, k1, seq, cached);
        p.lemma_claim_many_free(k1, seq, cached);
        let top = p.free[p.free.len() - k];
        let q = p.claim_many(k1, seq, cached);
        assert(q.free.last() == top);
        assert(p.popped(k) =~= p.popped(k1).push(top));
        assert forall|b: usize| b < p.blocks.len() implies (#[trigger] p.claim_many(k, seq, cached).blocks[b as int]).ref_count
            == if p.popped(k).contains(b) {
            1
        } else {
            p.blocks[b as int].ref_count
        } by {
            if b != top {
                if p.popped(k).contains(b) {
                    let j = choose|j: int| 0 <= j < p.popped(k).len() && p.popped(k)[j] == b;
                    assert(j < k1);
                    assert(p.popped(k1)[j] == b);
                }
                if p.popped(k1).contains(b) {
                    let j = choose|j: int| 0 <= j < p.popped(k1).len() && p.popped(k1)[j] == b;
                    assert(p.popped(k)[j] == b);
                }
            } else {
                assert(p.popped(k)[k - 1] == b);
            }
        }
    }
}

/// Blocks that `own_chunks` does not claim keep their owner.
pub proof fn lemma_own_chunks_other(
    v0: ManagerView,
    owner: Seq<Option<Seq<Seq<u32>>>>,
    tokens: Seq<u32>,
    bs: nat,
    h: nat,
    popped: Seq<usize>,
    m: nat,
    b: usize,
)
    requires
        forall|j: int| 0 <= j < m ==> popped[j] != b,
        forall|j: int| 0 <= j < m ==> #[trigger] popped[j] < owner.len(),
        b < owner.len(),
    ensures
        own_chunks(v0, owner, tokens, bs, h, popped, m)[b as int] == owner[b as int],
    decreases m,
{
    if m > 0 {
        lemma_own_chunks_other(v0, owner, tokens, bs, h, popped, (m - 1) as nat, b);
        lemma_owner_len(v0, owner, tokens, bs, h, popped, (m - 1) as nat);
    }
}

/// A block that `own_chunks` leaves owning a path longer than those it
/// claims for was not claimed, and owned that path before.
pub proof fn lemma_own_chunks_longer(
    v0: ManagerView,
    owner: Seq<Option<Seq<Seq<u32>>>>,
    tokens: Seq<u32>,
    bs: nat,
    h: nat,
    popped: Seq<usize>,
    m: nat,
    b: usize,
    p: Seq<Seq<u32>>,
)
    requires
        p.len() > h + m,
        forall|j: int| 0 <= j < m ==> #[trigger] popped[j] < owner.len(),
        b < owner.len(),
        own_chunks(v0, owner, tokens, bs, h, popped, m)[b as int] == Some(p),
    ensures
        owner[b as int] == Some(p),
        forall|j: int| 0 <= j < m ==> popped[j] != b,
    decreases m,
{
    if m > 0 {
        lemma_owner_len(v0, owner, tokens, bs, h, popped, (m - 1) as nat);
        let q = chunk_path(tokens, bs, h + m);
        assert(q.len() == h + m);
        if popped[m - 1] == b {
            assert(false);
        }
        lemma_own_chunks_longer(v0, owner, tokens, bs, h, popped, (m - 1) as nat, b, p);
    }
}

/// `own_chunks` reads only the first `m` entries of `popped`.
pub proof fn lemma_own_chunks_congruent(
    v0: ManagerView,
    owner: Seq<Option<Seq<Seq<u32>>>>,
    tokens: Seq<u32>,
    bs: nat,
    h: nat,
    p1: Seq<usize>,
    p2: Seq<usize>,
    m: nat,
)
    requires
        forall|j: int| 0 <= j < m ==> p1[j] == p2[j],
    ensures
        own_chunks(v0, owner, tokens, bs, h, p1, m) == own_chunks(v0, owner, tokens, bs, h, p2, m),
    decreases m,
{
    if m > 0 {
        lemma_own_chunks_congruent(v0, owner, tokens, bs, h, p1, p2, (m - 1) as nat);
    }
}

/// `disown` reads only the first `k` entries of `list`.
pub proof fn lemma_disown_congruent(
    owner: Seq<Option<Seq<Seq<u32>>>>,
    l1: Seq<usize>,
    l2: Seq<usize>,
    k: nat,
)
    requires
        forall|j: int| 0 <= j < k ==> l1[j] == l2[j],
    ensures
        disown(owner, l1, k) == disown(owner, l2, k),
    decreases k,
{
    if k > 0 {
        lemma_disown_congruent(owner, l1, l2, (k - 1) as nat);
    }
}

/// `extend_prefix` reads only the first `m` entries of `popped`.
pub proof fn lemma_extend_prefix_congruent(
    v0: ManagerView,
    prefix: Map<Seq<Seq<u32>>, usize>,
    tokens: Seq<u32>,
    bs: nat,
    h: nat,
    p1: Seq<usize>,
    p2: Seq<usize>,
    m: nat,
)
    requires
        forall|j: int| 0 <= j < m ==> p1[j] == p2[j],
    ensures
        extend_prefix(v0, prefix, tokens, bs, h, p1, m) == extend_prefix(v0, prefix, tokens, bs, h, p2, m),
    decreases m,
{
    if m > 0 {
        lemma_extend_prefix_congruent(v0, prefix, tokens, bs, h, p1, p2, (m - 1) as nat);
    }
}

impl PoolView {
    /// Reference counts after `share_seq`.
    pub proof fn lemma_share_seq(self, list: Seq<usize>, seq: usize)
        requires
            forall|j: int| 0 <= j < list.len() ==> #[trigger] list[j] < self.blocks.len(),
            forall|b: usize|
                b < self.blocks.len() ==> self.blocks[b as int].ref_count + #[trigger] occurrences(
                    list,
                    b,
                ) <= usize::MAX,
        ensures
            self.share_seq(list, seq).free == self.free,
            self.share_seq(list, seq).blocks.len() == self.blocks.len(),
            forall|b: usize|
                b < self.blocks.len() ==> (#[trigger] self.share_seq(list, seq).blocks[b as int]).ref_count
                    == self.blocks[b as int].ref_count + occurrences(list, b)
                    && self.share_seq(list, seq).blocks[b as int].block_id == self.blocks[b as int].block_id
                    && self.share_seq(list, seq).blocks[b as int].is_free == self.blocks[b as int].is_free,
        decreases list.len(),
    {
        if list.len() > 0 {
            let init = list.drop_last();
            assert forall|b: usize|
                b < self.blocks.len() implies self.blocks[b as int].ref_count + #[trigger] occurrences(
                init,
                b,
            ) <= usize::MAX by {
                assert(occurrences(list, b) >= occurrences(init, b));
            }
            self.lemma_share_seq(init, seq);
            let p = self.share_seq(init, seq);
            let last = list.last();
            assert(list[list.len() - 1] < self.blocks.len());
            assert forall|b: usize|
                b < self.blocks.len() implies (#[trigger] self.share_seq(list, seq).blocks[b as int]).ref_count
                    == self.blocks[b as int].ref_count + occurrences(list, b)
                    && self.share_seq(list, seq).blocks[b as int].block_id == self.blocks[b as int].block_id
                    && self.share_seq(list, seq).blocks[b as int].is_free == self.blocks[b as int].is_free by {
                assert(self.share_seq(list, seq) == p.share(last, seq));
                assert(occurrences(list, b) == occurrences(init, b) + if last
                    == b { 1nat } else { 0nat });
                assert(self.blocks[b as int].ref_count + occurrences(list, b) <= usize::MAX);
            }
        }
    }

    /// Block ids survive claims.
    pub proof fn lemma_claim_many_ids(self, k: nat, seq: usize, cached: bool)
        requires
            k <= self.free.len(),
            forall|j: int| 0 <= j < self.free.len() ==> #[trigger] self.free[j] < self.blocks.len(),
        ensures
            forall|b: int|
                0 <= b < self.blocks.len() ==> #[trigger] self.claim_many(k, seq, cached).blocks[b].block_id
                    == self.blocks[b].block_id,
        decreases k,
    {
        if k > 0 {
            self.lemma_claim_many_ids((k - 1) as nat, seq, cached);
            self.lemma_claim_many_free((k - 1) as nat, seq, cached);
        }
    }
}

/// The first block of `list`, from position `i` on, that holds no reference.
pub open spec fn first_unreferenced(p: PoolView, list: Seq<usize>, i: nat) -> Option<usize>
    decreases list.len() - i,
{
    if i >= list.len() {
        None
    } else if p.blocks[list[i as int] as int].ref_count == 0 {
        Some(list[i as int])
    } else {
        first_unreferenced(p, list, i + 1)
    }
}

/// No block of `list` from position `i` on is unreferenced exactly when all hold a reference.
pub proof fn lemma_first_unreferenced(p: PoolView, list: Seq<usize>, i: nat)
    requires
        i <= list.len(),
    ensures
        first_unreferenced(p, list, i) is None <==> forall|j: int|
            i <= j < list.len() ==> #[trigger] p.blocks[list[j] as int].ref_count > 0,
    decreases list.len() - i,
{
    if i < list.len() {
        lemma_first_unreferenced(p, list, i + 1);
    }
}

/// Result of a release run, as the allocator reports it.
pub open spec fn release_result(e: Option<usize>) -> Result<(), MemoryError> {
    match e {
        None => Ok(()),
        Some(b) => Err(MemoryError::DoubleFree(b)),
    }
}

/// The bounds under which admitting `tokens` cannot overflow a counter:
/// a non-zero block size, room in the lookup and hit counters, and room in
/// the reference count of every block the prompt would share.
pub open spec fn can_admit(v: ManagerView, tokens: Seq<u32>) -> bool {
    &&& v.block_size > 0
    &&& v.lookups < usize::MAX
    &&& v.hits + matched_depth(v, tokens, v.block_size as nat) <= usize::MAX
    &&& forall|b: usize|
        b < v.pool.blocks.len() ==> v.pool.blocks[b as int].ref_count + #[trigger] occurrences(
            hit_blocks(v, tokens, v.block_size as nat),
            b,
        ) <= usize::MAX
}

impl ManagerView {
    /// Effect and result of freeing sequence `seq`: nothing when it has no page
    /// table; otherwise the table goes and its blocks are released in order,
    /// stopping at the first that holds no reference.
    pub open spec fn release_sequence(self, seq: usize) -> (ManagerView, Result<(), MemoryError>) {
        if self.tables.contains_key(seq) {
            let (p, e) = self.pool.release_seq(self.tables[seq].blocks);
            (ManagerView { pool: p, tables: self.tables.remove(seq), ..self }, release_result(e))
        } else {
            (self, Ok(()))
        }
    }

    /// Effect and result of truncating sequence `seq` to `tokens` tokens: its
    /// table keeps the blocks those tokens need and records `tokens`; the blocks
    /// beyond are released last first, stopping at the first that holds no reference.
    pub open spec fn rollback(self, seq: usize, tokens: usize) -> (ManagerView, Result<(), MemoryError>) {
        if !self.tables.contains_key(seq) {
            (self, Err(MemoryError::SequenceNotFound(seq)))
        } else {
            let blocks = self.tables[seq].blocks;
            let needed = blocks_needed(tokens as nat, self.block_size as nat);
            let keep = if blocks.len() < needed { blocks.len() } else { needed };
            let (p, e) = self.pool.release_seq(blocks.subrange(keep as int, blocks.len() as int).reverse());
            (
                ManagerView {
                    pool: p,
                    tables: self.tables.insert(
                        seq,
                        TableView { logical_tokens: tokens, blocks: blocks.take(keep as int) },
                    ),
                    ..self
                },
                release_result(e),
            )
        }
    }

    /// Whether appending `n` tokens to `seq` writes into a partly filled block
    /// that another holder shares: the block holding the sequence's next token
    /// position is listed in its table and has more than one reference.
    pub open spec fn cow_needed(self, seq: usize, n: usize) -> bool {
        let t = self.tables[seq];
        let bs = self.block_size;
        &&& n > 0
        &&& bs > 0
        &&& t.logical_tokens % bs != 0
        &&& t.logical_tokens / bs < t.blocks.len()
        &&& self.pool.blocks[t.blocks[(t.logical_tokens / bs) as int] as int].ref_count > 1
    }

    /// Copy-on-write of the partly filled block of `seq`: a fresh block from
    /// the top of the free stack takes its place in the sequence's table, and
    /// the shared block loses the sequence's reference.
    pub open spec fn copy_partial_block(self, seq: usize) -> ManagerView {
        let t = self.tables[seq];
        let j = (t.logical_tokens / self.block_size) as int;
        let fresh = self.pool.free.last();
        ManagerView {
            pool: self.pool.claim_for(seq, false).release(t.blocks[j]),
            owner: self.owner.update(fresh as int, None),
            tables: self.tables.insert(
                seq,
                TableView { logical_tokens: t.logical_tokens, blocks: t.blocks.update(j, fresh) },
            ),
            ..self
        }
    }

    /// Effect and result of appending `n` tokens to sequence `seq`. It fails
    /// with `SequenceNotFound` or `CapacityExceeded` (changing nothing) when
    /// the sequence has no table or would need more than the per-sequence
    /// limit. When the tokens would be written into a partly filled block
    /// shared with another holder, that block is first copied to a fresh one
    /// (failing with `OutOfMemory`, changing nothing, when none is free); then
    /// blocks are claimed as `grow` says.
    pub open spec fn append(self, seq: usize, n: usize) -> (ManagerView, Result<(), MemoryError>) {
        if !self.tables.contains_key(seq) {
            (self, Err(MemoryError::SequenceNotFound(seq)))
        } else if blocks_needed((self.tables[seq].logical_tokens + n) as nat, self.block_size as nat)
            > self.max_blocks_per_seq {
            (self, Err(MemoryError::CapacityExceeded))
        } else if self.cow_needed(seq, n) {
            if self.pool.free.len() == 0 {
                (self, Err(MemoryError::OutOfMemory))
            } else {
                self.copy_partial_block(seq).grow(seq, n)
            }
        } else {
            self.grow(seq, n)
        }
    }

    /// Effect and result of growing sequence `seq` by `n` tokens: blocks are
    /// claimed for it until its tokens fit; it fails with `CapacityExceeded`
    /// (changing nothing) when it would need more than the per-sequence limit,
    /// and with `OutOfMemory` (keeping the claims made) when the free stack runs out.
    pub open spec fn grow(self, seq: usize, n: usize) -> (ManagerView, Result<(), MemoryError>) {
        if !self.tables.contains_key(seq) {
            (self, Err(MemoryError::SequenceNotFound(seq)))
        } else {
            let t = self.tables[seq];
            let new_tokens = (t.logical_tokens + n) as nat;
            let needed = blocks_needed(new_tokens, self.block_size as nat);
            let to_alloc: nat = if needed > t.blocks.len() { (needed - t.blocks.len()) as nat } else { 0 };
            let free_len = self.pool.free.len();
            if needed > self.max_blocks_per_seq {
                (self, Err(MemoryError::CapacityExceeded))
            } else if free_len < to_alloc {
                (
                    ManagerView {
                        pool: self.pool.claim_many(free_len, seq, false),
                        owner: disown(self.owner, self.pool.popped(free_len), free_len),
                        ..self
                    },
                    Err(MemoryError::OutOfMemory),
                )
            } else {
                (
                    ManagerView {
                        pool: self.pool.claim_many(to_alloc, seq, false),
                        owner: disown(self.owner, self.pool.popped(to_alloc), to_alloc),
                        tables: self.tables.insert(
                            seq,
                            TableView {
                                logical_tokens: new_tokens as usize,
                                blocks: t.blocks + self.pool.popped(to_alloc),
                            },
                        ),
                        ..self
                    },
                    Ok(()),
                )
            }
        }
    }

    /// Entry `j` of the exported block-table row for sequence `s`: its `j`-th
    /// block, or -1 where it has none.
    pub open spec fn cuda_entry(self, s: usize, j: int) -> i32 {
        if self.tables.contains_key(s) && j < self.tables[s].blocks.len() {
            self.tables[s].blocks[j] as i32
        } else {
            -1i32
        }
    }

    /// Exported token count of sequence `s` (0 when it has no page table).
    pub open spec fn cuda_len(self, s: usize) -> i32 {
        if self.tables.contains_key(s) {
            self.tables[s].logical_tokens as i32
        } else {
            0i32
        }
    }

    /// Effect and result of admitting prompt `tokens` for sequence `seq`
    /// (block size `bs`): the longest run of leading full chunks indexed with
    /// blocks that still hold a reference is shared, each further full chunk
    /// gets a fresh block recorded in the index (replacing any stale entry),
    /// and a trailing partial chunk gets a fresh block; the call fails
    /// with `OutOfMemory` when the free stack runs out, keeping what it did so far.
    /// A prompt needing more blocks than a sequence may hold is refused with
    /// `CapacityExceeded` before anything changes.
    pub open spec fn admit_prompt(self, seq: usize, tokens: Seq<u32>, bs: nat) -> (
        ManagerView,
        Result<usize, MemoryError>,
    ) {
        if prompt_blocks(tokens.len(), bs) > self.max_blocks_per_seq {
            (self, Err(MemoryError::CapacityExceeded))
        } else {
            self.admit_within_capacity(seq, tokens, bs)
        }
    }

    /// Effect and result of admitting a prompt that fits the per-sequence limit.
    pub open spec fn admit_within_capacity(self, seq: usize, tokens: Seq<u32>, bs: nat) -> (
        ManagerView,
        Result<usize, MemoryError>,
    ) {
        let registered = if self.tables.contains_key(seq) {
            self.tables
        } else {
            self.tables.insert(seq, TableView { logical_tokens: 0, blocks: Seq::empty() })
        };
        let n = tokens.len() / bs;
        let h = matched_depth(self, tokens, bs);
        let hits = hit_blocks(self, tokens, bs);
        let shared = self.pool.share_seq(hits, seq);
        let m = (n - h) as nat;
        let r: nat = if tokens.len() % bs > 0 { 1 } else { 0 };
        let k: nat = if shared.free.len() < m + r { shared.free.len() } else { m + r };
        let km: nat = if k < m { k } else { m };
        let popped = shared.popped(k);
        let pool1 = shared.claim_many(km, seq, true);
        let pool2 = if k > m { pool1.claim_for(seq, false) } else { pool1 };
        let prefix2 = extend_prefix(self, self.prefix, tokens, bs, h, popped, km);
        let owner1 = own_chunks(self, self.owner, tokens, bs, h, popped, km);
        let owner2 = if k > m { owner1.update(popped[m as int] as int, None) } else { owner1 };
        if k == m + r {
            (
                ManagerView {
                    lookups: (self.lookups + 1) as usize,
                    hits: (self.hits + h) as usize,
                    pool: pool2,
                    owner: owner2,
                    tables: registered.insert(
                        seq,
                        TableView { logical_tokens: tokens.len() as usize, blocks: hits + popped },
                    ),
                    prefix: prefix2,
                    ..self
                },
                Ok(h as usize),
            )
        } else {
            (
                ManagerView {
                    lookups: (self.lookups + 1) as usize,
                    hits: (self.hits + h) as usize,
                    pool: pool2,
                    owner: owner2,
                    tables: registered,
                    prefix: prefix2,
                    ..self
                },
                Err(MemoryError::OutOfMemory),
            )
        }
    }
}

/// Every block that holds a reference and was claimed for a chunk path is
/// still the index's entry for that path.
pub open spec fn owners_indexed(v: ManagerView) -> bool {
    forall|b: usize|
        b < v.pool.blocks.len() && v.pool.blocks[b as int].ref_count > 0 && #[trigger] v.owner[b as int] is Some
            ==> v.prefix.contains_key(v.owner[b as int]->0) && v.prefix[v.owner[b as int]->0] == b
}

/// Live entries of `v` stay live entries, naming the same block, in `w`
/// while their blocks still hold a reference there.
pub open spec fn keeps_live_entries(v: ManagerView, w: ManagerView) -> bool {
    forall|p: Seq<Seq<u32>>|
        #[trigger] live_entry(v, p) && v.prefix[p] < w.pool.blocks.len() && w.pool.blocks[v.prefix[p] as int].ref_count
            > 0 ==> live_entry(w, p) && w.prefix[p] == v.prefix[p]
}

/// Position of entry `j` of row `i` in a row-major table with `width` columns.
pub open spec fn flat_index(i: int, j: int, width: int) -> int {
    i * width + j
}

/// Structural facts every well-formed manager's view satisfies.
pub open spec fn view_wf(v: ManagerView) -> bool {
    &&& v.pool.blocks.len() == v.total_blocks
    &&& v.owner.len() == v.total_blocks
    &&& forall|i: int| 0 <= i < v.pool.blocks.len() ==> #[trigger] v.pool.blocks[i].block_id == i
    &&& free_in_range(v.pool)
    &&& forall|s: usize, j: int|
        v.tables.contains_key(s) && 0 <= j < v.tables[s].blocks.len() ==> #[trigger] v.tables[s].blocks[j]
            < v.total_blocks
    &&& forall|p: Seq<Seq<u32>>| #[trigger] v.prefix.contains_key(p) ==> v.prefix[p] < v.total_blocks
    &&& prefix_closed(v.prefix)
}

} // verus!
