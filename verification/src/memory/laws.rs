//! Laws of the block manager, stated over the transitions its operations'
//! contracts use.

use vstd::prelude::*;
use crate::memory::block_manager::PhysicalBlock;
use crate::memory::model::{
    PoolView, ManagerView, occurrences, view_wf, hit_blocks, matched_depth, depth_from, chunk_path,
    live_entry, can_admit, blocks_needed, prompt_blocks, lemma_matched_depth, lemma_depth_from,
    own_chunks, lemma_owner_len, lemma_claim_many_refs, lemma_extend_prefix_new, lemma_chunk_path_take,
    owners_indexed, keeps_live_entries, disown, lemma_disown_congruent,
};
use crate::memory::accounting::{free_in_range, all_live};

verus! {

/// The block numbers below `n`.
spec fn below(n: nat) -> Set<usize> {
    Set::new(|x: usize| x < n)
}

proof fn lemma_below(n: nat)
    requires
        n <= usize::MAX + 1,
    ensures
        below(n).finite(),
        below(n).len() == n,
    decreases n,
{
    if n == 0 {
        assert(below(0) =~= Set::<usize>::empty());
    } else {
        lemma_below((n - 1) as nat);
        assert(below(n) =~= below((n - 1) as nat).insert((n - 1) as usize));
    }
}

/// Blocks of the pool with no reference left.
pub open spec fn unreferenced(v: ManagerView) -> Set<usize> {
    Set::new(|b: usize| b < v.total_blocks && v.pool.blocks[b as int].ref_count == 0)
}

/// Blocks of the pool holding at least one reference.
pub open spec fn referenced(v: ManagerView) -> Set<usize> {
    Set::new(|b: usize| b < v.total_blocks && v.pool.blocks[b as int].ref_count > 0)
}

/// Accounting: in a consistent pool the free stack lists exactly the blocks
/// without a reference, which are exactly the blocks marked free; so the free
/// count is the number of such blocks, the allocated count (blocks off the
/// stack) is the number of referenced blocks, and the two add up to the pool
/// size.
pub proof fn law_consistent_pool_accounting(v: ManagerView)
    requires
        view_wf(v),
        v.pool.consistent(),
    ensures
        v.pool.free.to_set() == unreferenced(v),
        unreferenced(v) == Set::new(|b: usize| b < v.total_blocks && v.pool.blocks[b as int].is_free),
        v.pool.free.len() == unreferenced(v).len(),
        v.pool.free.len() <= v.total_blocks,
        v.total_blocks - v.pool.free.len() == referenced(v).len(),
        (v.total_blocks - v.pool.free.len()) + v.pool.free.len() == v.total_blocks,
{
    let s = v.pool.free.to_set();
    let all = below(v.total_blocks as nat);
    v.pool.free.unique_seq_to_set();
    lemma_below(v.total_blocks as nat);
    assert forall|x: usize| s.contains(x) <==> unreferenced(v).contains(x) by {
        if s.contains(x) {
            let k = choose|k: int| 0 <= k < v.pool.free.len() && v.pool.free[k] == x;
            assert(v.pool.free[k] < v.pool.blocks.len());
        }
        if unreferenced(v).contains(x) {
            assert(v.pool.free.contains(x));
        }
    }
    assert(s =~= unreferenced(v));
    assert(unreferenced(v) =~= Set::new(|b: usize| b < v.total_blocks && v.pool.blocks[b as int].is_free));
    vstd::set_lib::lemma_len_subset(s, all);
    vstd::set_lib::lemma_len_subset(referenced(v), all);
    assert(unreferenced(v) + referenced(v) =~= all);
    assert(unreferenced(v).disjoint(referenced(v)));
    vstd::set_lib::lemma_set_disjoint_lens(unreferenced(v), referenced(v));
}

/// Round trip: allocating a block and then freeing it puts the free stack
/// and every reference count back as they were.
pub proof fn law_allocate_then_free(p: PoolView)
    requires
        p.consistent(),
        free_in_range(p),
        p.free.len() > 0,
    ensures
        p.claim_top().can_release(p.free.last()),
        p.claim_top().release(p.free.last()).free == p.free,
        p.claim_top().release(p.free.last()).blocks.len() == p.blocks.len(),
        forall|c: int|
            0 <= c < p.blocks.len() ==> #[trigger] p.claim_top().release(p.free.last()).blocks[c].ref_count
                == p.blocks[c].ref_count,
{
    let b = p.free.last();
    assert(p.free.contains(b));
    assert(p.free[p.free.len() - 1] < p.blocks.len());
    assert(p.free.drop_last().push(b) =~= p.free);
}

/// `occurrences` counted from the front.
proof fn lemma_occurrences_first(s: Seq<usize>, b: usize)
    requires
        s.len() > 0,
    ensures
        occurrences(s, b) == occurrences(s.drop_first(), b) + if s[0] == b { 1nat } else { 0nat },
    decreases s.len(),
{
    if s.len() > 1 {
        lemma_occurrences_first(s.drop_last(), b);
        assert(s.drop_last().drop_first() =~= s.drop_first().drop_last());
    } else {
        assert(s.drop_first() =~= Seq::<usize>::empty());
        assert(s.drop_last() =~= Seq::<usize>::empty());
    }
}

/// Releasing blocks that each hold more references than the run drops
/// never fails and only lowers their counts.
proof fn lemma_release_seq_keeps_alive(q: PoolView, list: Seq<usize>)
    requires
        forall|j: int| 0 <= j < list.len() ==> #[trigger] list[j] < q.blocks.len(),
        forall|b: usize|
            b < q.blocks.len() && #[trigger] occurrences(list, b) > 0 ==> q.blocks[b as int].ref_count
                > occurrences(list, b),
    ensures
        q.release_seq(list).1 is None,
        q.release_seq(list).0.free == q.free,
        q.release_seq(list).0.blocks.len() == q.blocks.len(),
        forall|b: usize|
            b < q.blocks.len() ==> #[trigger] q.release_seq(list).0.blocks[b as int] == (crate::memory::block_manager::PhysicalBlock {
                ref_count: (q.blocks[b as int].ref_count - occurrences(list, b)) as usize,
                ..q.blocks[b as int]
            }),
    decreases list.len(),
{
    if list.len() > 0 {
        let c = list[0];
        lemma_occurrences_first(list, c);
        assert(q.can_release(c));
        let q1 = q.release(c);
        let rest = list.drop_first();
        assert forall|b: usize|
            b < q1.blocks.len() && #[trigger] occurrences(rest, b) > 0 implies q1.blocks[b as int].ref_count
                > occurrences(rest, b) by {
            lemma_occurrences_first(list, b);
            assert(occurrences(list, b) > 0);
        }
        assert forall|j: int| 0 <= j < rest.len() implies #[trigger] rest[j] < q1.blocks.len() by {
            assert(rest[j] == list[j + 1]);
        }
        lemma_release_seq_keeps_alive(q1, rest);
        assert forall|b: usize|
            b < q.blocks.len() implies #[trigger] q.release_seq(list).0.blocks[b as int] == (crate::memory::block_manager::PhysicalBlock {
                ref_count: (q.blocks[b as int].ref_count - occurrences(list, b)) as usize,
                ..q.blocks[b as int]
            }) by {
            lemma_occurrences_first(list, b);
        }
    } else {
        assert forall|b: usize|
            b < q.blocks.len() implies #[trigger] q.release_seq(list).0.blocks[b as int] == (crate::memory::block_manager::PhysicalBlock {
                ref_count: (q.blocks[b as int].ref_count - occurrences(list, b)) as usize,
                ..q.blocks[b as int]
            }) by {}
        assert(q.release_seq(list).0.blocks =~= q.blocks);
    }
}

/// Copy-on-write undo: forking a sequence into a fresh child and then
/// freeing the child leaves the pool and the page tables exactly as they
/// were, provided every block of the parent holds a reference.
pub proof fn law_fork_then_free_child(v: ManagerView, parent: usize, child: usize)
    requires
        view_wf(v),
        v.tables.contains_key(parent),
        !v.tables.contains_key(child),
        all_live(v.pool, v.tables[parent].blocks),
        forall|b: usize|
            b < v.pool.blocks.len() ==> v.pool.blocks[b as int].ref_count + #[trigger] occurrences(
                v.tables[parent].blocks,
                b,
            ) <= usize::MAX,
    ensures
        ({
            let forked = ManagerView {
                pool: v.pool.bump_seq(v.tables[parent].blocks),
                tables: v.tables.insert(child, v.tables[parent]),
                ..v
            };
            let (p2, e) = forked.pool.release_seq(forked.tables[child].blocks);
            &&& e is None
            &&& p2 == v.pool
            &&& forked.tables.remove(child) == v.tables
        }),
{
    let list = v.tables[parent].blocks;
    v.pool.lemma_bump_seq(list);
    let q = v.pool.bump_seq(list);
    assert forall|j: int| 0 <= j < list.len() implies #[trigger] list[j] < q.blocks.len() by {}
    assert forall|b: usize|
        b < q.blocks.len() && #[trigger] occurrences(list, b) > 0 implies q.blocks[b as int].ref_count
            > occurrences(list, b) by {
        crate::memory::accounting::lemma_occurs_in(list, b);
        let j = choose|j: int| 0 <= j < list.len() && list[j] == b;
        assert(v.pool.blocks[list[j] as int].ref_count > 0);
    }
    lemma_release_seq_keeps_alive(q, list);
    let p2 = q.release_seq(list).0;
    assert(p2.blocks =~= v.pool.blocks);
    assert(v.tables.insert(child, v.tables[parent]).remove(child) =~= v.tables);
}

/// A run of `k` leading chunk paths recorded as live entries is matched.
proof fn lemma_depth_at_least(v: ManagerView, tokens: Seq<u32>, bs: nat, i: nat, k: nat)
    requires
        bs > 0,
        i <= k <= tokens.len() / bs,
        forall|j: nat| 1 <= j <= k ==> #[trigger] live_entry(v, chunk_path(tokens, bs, j)),
    ensures
        depth_from(v, tokens, bs, i) >= k,
    decreases k - i,
{
    if i < k {
        assert(live_entry(v, chunk_path(tokens, bs, i + 1)));
        lemma_depth_at_least(v, tokens, bs, i + 1, k);
    } else {
        lemma_depth_from(v, tokens, bs, i);
    }
}


/// The `j`-th block `own_chunks` claims, among distinct ones, owns the
/// `j + 1`-th path after `h` when that path was not a live entry.
proof fn lemma_own_chunks_claimed(
    v0: ManagerView,
    owner: Seq<Option<Seq<Seq<u32>>>>,
    tokens: Seq<u32>,
    bs: nat,
    h: nat,
    popped: Seq<usize>,
    m: nat,
    j: int,
)
    requires
        0 <= j < m <= popped.len(),
        forall|i: int| 0 <= i < m ==> #[trigger] popped[i] < owner.len(),
        forall|a: int, c: int| 0 <= a < c < m ==> popped[a] != popped[c],
        !live_entry(v0, chunk_path(tokens, bs, (h + j + 1) as nat)),
    ensures
        own_chunks(v0, owner, tokens, bs, h, popped, m)[popped[j] as int] == Some(chunk_path(tokens, bs, (h + j + 1) as nat)),
    decreases m,
{
    lemma_owner_len(v0, owner, tokens, bs, h, popped, m);
    if j < m - 1 {
        lemma_own_chunks_claimed(v0, owner, tokens, bs, h, popped, (m - 1) as nat, j);
        lemma_owner_len(v0, owner, tokens, bs, h, popped, (m - 1) as nat);
    } else {
        lemma_owner_len(v0, owner, tokens, bs, h, popped, (m - 1) as nat);
        assert(h + m == h + j + 1);
    }
}

/// In `w`, the state after admitting `tokens` for `seq` on `v`, every full
/// chunk path of the prompt is a live entry; it names the block the
/// sequence's table lists for that chunk unless the path was already a live
/// entry of `v` beyond the run the admission matched.
pub open spec fn records_chunks(v: ManagerView, w: ManagerView, seq: usize, tokens: Seq<u32>, bs: nat) -> bool {
    &&& w.tables.contains_key(seq)
    &&& w.tables[seq].blocks.len() >= tokens.len() / bs
    &&& forall|j: nat|
        1 <= j <= tokens.len() / bs ==> #[trigger] live_entry(w, chunk_path(tokens, bs, j)) && (j
            <= matched_depth(v, tokens, bs) || !live_entry(v, chunk_path(tokens, bs, j)) ==> w.prefix[chunk_path(
            tokens,
            bs,
            j,
        )] == w.tables[seq].blocks[j - 1])
}

/// Admission records the prompt: after a successful admission of `tokens`
/// for `seq`, every full chunk path of the prompt is a live entry, naming the
/// block the sequence now holds for that chunk (except where the path was
/// already a live entry beyond the matched run, which keeps its block).
#[verifier::rlimit(80)]
#[verifier::spinoff_prover]
pub proof fn law_admission_records_chunks(v: ManagerView, seq: usize, tokens: Seq<u32>, bs: nat)
    requires
        bs > 0,
        view_wf(v),
        v.pool.consistent(),
        v.admit_prompt(seq, tokens, bs).1 is Ok,
        forall|b: usize|
            b < v.pool.blocks.len() ==> v.pool.blocks[b as int].ref_count + #[trigger] occurrences(
                hit_blocks(v, tokens, bs),
                b,
            ) <= usize::MAX,
    ensures
        records_chunks(v, v.admit_prompt(seq, tokens, bs).0, seq, tokens, bs),
{
    let n = tokens.len() / bs;
    let h = matched_depth(v, tokens, bs);
    let hits = hit_blocks(v, tokens, bs);
    lemma_matched_depth(v, tokens, bs);
    v.pool.lemma_share_seq(hits, seq);
    lemma_share_seq_free(v.pool, hits, seq);
    let shared = v.pool.share_seq(hits, seq);
    let m = (n - h) as nat;
    let r: nat = if tokens.len() % bs > 0 { 1 } else { 0 };
    let k = m + r;
    let popped = shared.popped(k);
    let pool1 = shared.claim_many(m, seq, true);
    let pool2 = if r > 0 { pool1.claim_for(seq, false) } else { pool1 };
    let owner1 = own_chunks(v, v.owner, tokens, bs, h, popped, m);
    let owner2 = if r > 0 { owner1.update(popped[m as int] as int, None) } else { owner1 };
    let v1 = v.admit_prompt(seq, tokens, bs).0;
    let lf = v.pool.free.len();
    assert(prompt_blocks(tokens.len(), bs) <= v.max_blocks_per_seq);
    assert(v1 == v.admit_within_capacity(seq, tokens, bs).0);
    assert(shared.free.len() >= k);
    assert(v1.pool == pool2);
    assert(v1.owner == owner2);
    assert(v1.tables[seq].blocks == hits + popped);
    assert(free_in_range(shared));
    lemma_claim_many_refs(shared, m, seq, true);
    shared.lemma_claim_many_free(m, seq, true);
    crate::memory::accounting::lemma_admit_keeps_live_entries(v, seq, tokens, bs);
    // Claimed blocks come off the free stack: distinct, and none of them referenced.
    assert forall|a: int, c: int| 0 <= a < c < k implies popped[a] != popped[c] by {
        assert(popped[a] == v.pool.free[lf - 1 - a]);
        assert(popped[c] == v.pool.free[lf - 1 - c]);
    }
    assert forall|i: int| 0 <= i < k implies #[trigger] popped[i] < v.owner.len() && v.pool.blocks[popped[i] as int].ref_count
        == 0 by {
        let b = popped[i];
        assert(b == v.pool.free[lf - 1 - i]);
        assert(v.pool.free.contains(b));
        assert(v.pool.free.contains(b) <==> v.pool.blocks[b as int].ref_count == 0);
    }
    lemma_owner_len(v, v.owner, tokens, bs, h, popped, m);
    assert(v1.tables.contains_key(seq));
    assert(hits.len() == h);
    assert(v1.tables[seq].blocks.len() >= n);
    assert forall|j: nat| 1 <= j <= n implies #[trigger] live_entry(v1, chunk_path(tokens, bs, j)) && (j <= h
        || !live_entry(v, chunk_path(tokens, bs, j)) ==> v1.prefix[chunk_path(tokens, bs, j)]
        == v1.tables[seq].blocks[j - 1]) by {
        let path = chunk_path(tokens, bs, j);
        assert(path.len() == j);
        let pm = shared.popped(m);
        if j <= h || live_entry(v, path) {
            // An entry that was live keeps its block, which stays referenced.
            assert(live_entry(v, path));
            let b = v.prefix[path];
            assert forall|i: int| 0 <= i < k implies popped[i] != b by {
                assert(popped[i] < v.owner.len());
            }
            assert(!pm.contains(b)) by {
                if pm.contains(b) {
                    let i = choose|i: int| 0 <= i < pm.len() && pm[i] == b;
                    assert(popped[i] == b);
                }
            }
            assert(pool1.blocks[b as int].ref_count >= v.pool.blocks[b as int].ref_count);
            if r > 0 {
                assert(pool1.free.last() == popped[m as int]);
            }
            assert(v1.pool.blocks[b as int].ref_count > 0);
            if j <= h {
                assert(hits[j - 1] == b);
                assert(v1.tables[seq].blocks[j - 1] == b);
            }
        } else {
            let i = j - h - 1;
            let b = popped[i];
            lemma_extend_prefix_new(v, v.prefix, tokens, bs, h, popped, m, (j - h) as nat);
            assert(h + (j - h) as nat == j);
            assert(v1.prefix[path] == b);
            assert(v1.tables[seq].blocks[j - 1] == b);
            assert(b == shared.free[shared.free.len() - 1 - i]);
            assert((h + i + 1) as nat == j);
            lemma_own_chunks_claimed(v, v.owner, tokens, bs, h, popped, m, i);
            if r > 0 {
                assert(popped[m as int] != popped[i]);
                assert(pool1.free.last() == popped[m as int]);
            }
            assert(v1.owner[b as int] == Some(path));
            assert(pm[i] == b);
            assert(pm.contains(b));
            assert(v1.pool.blocks[b as int].ref_count > 0);
        }
    }
}

/// Occurrences in a sequence without duplicates.
proof fn lemma_occurrences_distinct(s: Seq<usize>, j: int)
    requires
        0 <= j < s.len(),
        s.no_duplicates(),
    ensures
        occurrences(s, s[j]) == 1,
    decreases s.len(),
{
    if j < s.len() - 1 {
        lemma_occurrences_distinct(s.drop_last(), j);
    } else {
        let b = s[j];
        if occurrences(s.drop_last(), b) > 0 {
            crate::memory::accounting::lemma_occurs_in(s.drop_last(), b);
        }
    }
}

/// Prefix sharing, in any state: when the first `j0` full chunk paths of a
/// prompt `q` are live entries, and the prompt fits the per-sequence limit
/// with enough free blocks for its other chunks, admitting `q` succeeds,
/// shares at least `j0` blocks, lists those entries' blocks first in the new
/// page table, and raises each of their reference counts by one. Live
/// entries survive every operation while their blocks stay referenced
/// (each mutating operation ensures `keeps_live_entries`), and a successful
/// admission records its prompt's chunks (`law_admission_records_chunks`),
/// so this holds across any history of calls.
#[verifier::rlimit(80)]
#[verifier::spinoff_prover]
pub proof fn law_live_prefix_is_shared(v: ManagerView, seq: usize, q: Seq<u32>, j0: nat)
    requires
        view_wf(v),
        v.pool.consistent(),
        can_admit(v, q),
        q.len() <= usize::MAX,
        j0 <= q.len() / (v.block_size as nat),
        forall|j: nat| 1 <= j <= j0 ==> #[trigger] live_entry(v, chunk_path(q, v.block_size as nat, j)),
        prompt_blocks(q.len(), v.block_size as nat) <= v.max_blocks_per_seq,
        v.pool.free.len() + j0 >= prompt_blocks(q.len(), v.block_size as nat),
    ensures
        ({
            let bs = v.block_size as nat;
            let (w, r) = v.admit_prompt(seq, q, bs);
            &&& r is Ok
            &&& r->Ok_0 >= j0
            &&& w.tables.contains_key(seq)
            &&& w.tables[seq].blocks.len() >= j0
            &&& forall|j: int| 0 <= j < j0 ==> #[trigger] w.tables[seq].blocks[j] == v.prefix[chunk_path(q, bs, (j + 1) as nat)]
            &&& forall|j: int|
                0 <= j < j0 ==> #[trigger] w.pool.blocks[v.prefix[chunk_path(q, bs, (j + 1) as nat)] as int].ref_count
                    == v.pool.blocks[v.prefix[chunk_path(q, bs, (j + 1) as nat)] as int].ref_count + 1
        }),
{
    let bs = v.block_size as nat;
    let n = q.len() / bs;
    lemma_depth_at_least(v, q, bs, 0, j0);
    let h = matched_depth(v, q, bs);
    let hits = hit_blocks(v, q, bs);
    lemma_matched_depth(v, q, bs);
    v.pool.lemma_share_seq(hits, seq);
    lemma_share_seq_free(v.pool, hits, seq);
    let shared = v.pool.share_seq(hits, seq);
    let m = (n - h) as nat;
    let r: nat = if q.len() % bs > 0 { 1 } else { 0 };
    let k = m + r;
    let popped = shared.popped(k);
    let pool1 = shared.claim_many(m, seq, true);
    let lf = v.pool.free.len();
    let (w, res) = v.admit_prompt(seq, q, bs);
    assert(w == v.admit_within_capacity(seq, q, bs).0);
    assert(res == v.admit_within_capacity(seq, q, bs).1);
    assert(prompt_blocks(q.len(), bs) == n + r);
    assert(shared.free.len() >= k);
    assert(res == Ok::<usize, crate::memory::block_manager::MemoryError>(h as usize));
    assert(w.tables[seq].blocks == hits + popped);
    assert(free_in_range(shared));
    lemma_claim_many_refs(shared, m, seq, true);
    assert forall|i: int| 0 <= i < k implies v.pool.blocks[#[trigger] popped[i] as int].ref_count == 0 by {
        let b = popped[i];
        assert(b == v.pool.free[lf - 1 - i]);
        assert(v.pool.free.contains(b));
        assert(v.pool.free.contains(b) <==> v.pool.blocks[b as int].ref_count == 0);
    }
    // Matched blocks are distinct: each owns a different path.
    assert(hits.no_duplicates()) by {
        assert forall|a: int, c: int| 0 <= a < hits.len() && 0 <= c < hits.len() && a != c implies hits[a] != hits[c] by {
            let pa = chunk_path(q, bs, (a + 1) as nat);
            let pc = chunk_path(q, bs, (c + 1) as nat);
            assert(live_entry(v, pa));
            assert(live_entry(v, pc));
            assert(pa.len() != pc.len());
        }
    }
    assert forall|j: int| 0 <= j < j0 implies #[trigger] w.pool.blocks[v.prefix[chunk_path(q, bs, (j + 1) as nat)] as int].ref_count
        == v.pool.blocks[v.prefix[chunk_path(q, bs, (j + 1) as nat)] as int].ref_count + 1 by {
        let b = hits[j];
        assert(b == v.prefix[chunk_path(q, bs, (j + 1) as nat)]);
        lemma_occurrences_distinct(hits, j);
        let pm = shared.popped(m);
        assert(!pm.contains(b)) by {
            if pm.contains(b) {
                let i = choose|i: int| 0 <= i < m && pm[i] == b;
                assert(popped[i] == b);
            }
        }
        if r > 0 {
            assert(pool1.free.last() == popped[m as int]);
            assert(popped[m as int] != b);
        }
    }
}

/// Sequence `seq` holds, as the first `j0` blocks of its page table, blocks
/// that still hold a reference and were claimed for the first `j0` full
/// chunk paths of `tokens`.
pub open spec fn holds_prompt_chunks(v: ManagerView, seq: usize, tokens: Seq<u32>, j0: nat) -> bool {
    let bs = v.block_size as nat;
    &&& bs > 0
    &&& j0 <= tokens.len() / bs
    &&& v.tables.contains_key(seq)
    &&& j0 <= v.tables[seq].blocks.len()
    &&& forall|j: int|
        0 <= j < j0 ==> {
            let b = #[trigger] v.tables[seq].blocks[j];
            &&& b < v.pool.blocks.len()
            &&& v.pool.blocks[b as int].ref_count > 0
            &&& b < v.owner.len()
            &&& v.owner[b as int] == Some(chunk_path(tokens, bs, (j + 1) as nat))
        }
}

/// A held block claimed for a chunk path is that path's live entry.
proof fn lemma_held_chunk_is_live(v: ManagerView, seq: usize, tokens: Seq<u32>, j0: nat, j: int)
    requires
        owners_indexed(v),
        holds_prompt_chunks(v, seq, tokens, j0),
        0 <= j < j0,
    ensures
        live_entry(v, chunk_path(tokens, v.block_size as nat, (j + 1) as nat)),
        v.prefix[chunk_path(tokens, v.block_size as nat, (j + 1) as nat)] == v.tables[seq].blocks[j],
{
    let b = v.tables[seq].blocks[j];
    assert(v.owner[b as int] is Some);
}

/// Admission leaves the sequence holding its prompt's chunks: after a
/// successful admission of `tokens` for `seq`, the first `j0` blocks of the
/// new page table are referenced and claimed for the first `j0` chunk paths
/// of the prompt, for every `j0` up to the number of full chunks such that
/// none of those paths beyond the matched run was already a live entry.
pub proof fn law_admission_holds_prompt_chunks(v: ManagerView, seq: usize, tokens: Seq<u32>, j0: nat)
    requires
        v.block_size > 0,
        view_wf(v),
        v.pool.consistent(),
        v.admit_prompt(seq, tokens, v.block_size as nat).1 is Ok,
        forall|b: usize|
            b < v.pool.blocks.len() ==> v.pool.blocks[b as int].ref_count + #[trigger] occurrences(
                hit_blocks(v, tokens, v.block_size as nat),
                b,
            ) <= usize::MAX,
        j0 <= tokens.len() / (v.block_size as nat),
        forall|j: nat|
            1 <= j <= j0 ==> j <= matched_depth(v, tokens, v.block_size as nat) || !#[trigger] live_entry(
                v,
                chunk_path(tokens, v.block_size as nat, j),
            ),
    ensures
        holds_prompt_chunks(v.admit_prompt(seq, tokens, v.block_size as nat).0, seq, tokens, j0),
{
    let bs = v.block_size as nat;
    let w = v.admit_prompt(seq, tokens, bs).0;
    law_admission_records_chunks(v, seq, tokens, bs);
    assert(w.block_size == v.block_size);
    assert forall|j: int| 0 <= j < j0 implies {
        let b = #[trigger] w.tables[seq].blocks[j];
        &&& b < w.pool.blocks.len()
        &&& w.pool.blocks[b as int].ref_count > 0
        &&& b < w.owner.len()
        &&& w.owner[b as int] == Some(chunk_path(tokens, bs, (j + 1) as nat))
    } by {
        let jn = (j + 1) as nat;
        assert(live_entry(w, chunk_path(tokens, bs, jn)));
        assert(jn <= matched_depth(v, tokens, bs) || !live_entry(v, chunk_path(tokens, bs, jn)));
    }
}

/// Held chunks stay held: if `seq` holds the chunks of `tokens` in `v`, and
/// `w` follows from `v` by an operation that keeps live entries (each
/// mutating operation of the block manager, from `allocate_block` to
/// `set_block_speculative`, ensures `keeps_live_entries`), then `seq` still
/// holds them in `w` as long as its page table still starts with the same
/// blocks and each of them still holds a reference. Applied once per call,
/// this carries the chunks through any history of calls.
pub proof fn law_held_chunks_persist(v: ManagerView, w: ManagerView, seq: usize, tokens: Seq<u32>, j0: nat)
    requires
        owners_indexed(v),
        keeps_live_entries(v, w),
        holds_prompt_chunks(v, seq, tokens, j0),
        w.block_size == v.block_size,
        w.tables.contains_key(seq),
        j0 <= w.tables[seq].blocks.len(),
        forall|j: int| 0 <= j < j0 ==> #[trigger] w.tables[seq].blocks[j] == v.tables[seq].blocks[j],
        forall|j: int|
            0 <= j < j0 ==> w.tables[seq].blocks[j] < w.pool.blocks.len()
                && w.pool.blocks[#[trigger] w.tables[seq].blocks[j] as int].ref_count > 0,
    ensures
        holds_prompt_chunks(w, seq, tokens, j0),
{
    let bs = v.block_size as nat;
    assert forall|j: int| 0 <= j < j0 implies {
        let b = #[trigger] w.tables[seq].blocks[j];
        &&& b < w.pool.blocks.len()
        &&& w.pool.blocks[b as int].ref_count > 0
        &&& b < w.owner.len()
        &&& w.owner[b as int] == Some(chunk_path(tokens, bs, (j + 1) as nat))
    } by {
        lemma_held_chunk_is_live(v, seq, tokens, j0, j);
        let path = chunk_path(tokens, bs, (j + 1) as nat);
        assert(w.tables[seq].blocks[j] == v.tables[seq].blocks[j]);
        assert(live_entry(w, path));
    }
}

/// Prefix sharing across requests: when sequence `holder` holds the first
/// `j0` chunks of a prompt `p`, and a prompt `q` starts with the same `j0`
/// chunks, fits the per-sequence limit and finds enough free blocks for its
/// other chunks, admitting `q` for `seq` succeeds, shares at least `j0`
/// blocks, starts the new page table with the holder's first `j0` blocks,
/// and raises each of their reference counts by one.
pub proof fn law_held_prefix_is_shared(
    v: ManagerView,
    holder: usize,
    p: Seq<u32>,
    seq: usize,
    q: Seq<u32>,
    j0: nat,
)
    requires
        view_wf(v),
        v.pool.consistent(),
        owners_indexed(v),
        holds_prompt_chunks(v, holder, p, j0),
        j0 <= q.len() / (v.block_size as nat),
        chunk_path(q, v.block_size as nat, j0) == chunk_path(p, v.block_size as nat, j0),
        can_admit(v, q),
        q.len() <= usize::MAX,
        prompt_blocks(q.len(), v.block_size as nat) <= v.max_blocks_per_seq,
        v.pool.free.len() + j0 >= prompt_blocks(q.len(), v.block_size as nat),
    ensures
        ({
            let (w, r) = v.admit_prompt(seq, q, v.block_size as nat);
            &&& r is Ok
            &&& r->Ok_0 >= j0
            &&& w.tables.contains_key(seq)
            &&& w.tables[seq].blocks.len() >= j0
            &&& forall|j: int| 0 <= j < j0 ==> #[trigger] w.tables[seq].blocks[j] == v.tables[holder].blocks[j]
            &&& forall|j: int|
                0 <= j < j0 ==> w.pool.blocks[#[trigger] v.tables[holder].blocks[j] as int].ref_count
                    == v.pool.blocks[v.tables[holder].blocks[j] as int].ref_count + 1
        }),
{
    let bs = v.block_size as nat;
    assert forall|j: int| 0 <= j < j0 implies chunk_path(q, bs, (j + 1) as nat) == chunk_path(p, bs, (j + 1) as nat)
        && v.prefix[chunk_path(q, bs, (j + 1) as nat)] == v.tables[holder].blocks[j] by {
        lemma_chunk_path_take(q, bs, j0, (j + 1) as nat);
        lemma_chunk_path_take(p, bs, j0, (j + 1) as nat);
        lemma_held_chunk_is_live(v, holder, p, j0, j);
    }
    assert forall|j: nat| 1 <= j <= j0 implies #[trigger] live_entry(v, chunk_path(q, bs, j)) by {
        let i = j - 1;
        lemma_chunk_path_take(q, bs, j0, j);
        lemma_chunk_path_take(p, bs, j0, j);
        lemma_held_chunk_is_live(v, holder, p, j0, i);
    }
    law_live_prefix_is_shared(v, seq, q, j0);
    let w = v.admit_prompt(seq, q, bs).0;
    assert forall|j: int| 0 <= j < j0 implies #[trigger] w.tables[seq].blocks[j] == v.tables[holder].blocks[j] by {
        assert(v.prefix[chunk_path(q, bs, (j + 1) as nat)] == v.tables[holder].blocks[j]);
    }
    assert forall|j: int| 0 <= j < j0 implies w.pool.blocks[#[trigger] v.tables[holder].blocks[j] as int].ref_count
        == v.pool.blocks[v.tables[holder].blocks[j] as int].ref_count + 1 by {
        assert(v.prefix[chunk_path(q, bs, (j + 1) as nat)] == v.tables[holder].blocks[j]);
        assert(w.pool.blocks[v.prefix[chunk_path(q, bs, (j + 1) as nat)] as int].ref_count
            == v.pool.blocks[v.prefix[chunk_path(q, bs, (j + 1) as nat)] as int].ref_count + 1);
    }
}

/// Exported rows list a sequence's blocks in order: for `j` below the row
/// width, entry `j` of the row of `s` is its `j`-th block number whenever
/// its page table has that many blocks, and -1 past its last block or when
/// it has no page table; the exported length of `s` is its token count, or
/// 0 when it has no page table.
pub proof fn law_exported_row_entries(v: ManagerView, s: usize, j: int)
    requires
        0 <= j < v.max_blocks_per_seq,
    ensures
        v.tables.contains_key(s) && j < v.tables[s].blocks.len() ==> v.cuda_entry(s, j)
            == v.tables[s].blocks[j] as i32,
        !v.tables.contains_key(s) || j >= v.tables[s].blocks.len() ==> v.cuda_entry(s, j) == -1i32,
        v.tables.contains_key(s) ==> v.cuda_len(s) == v.tables[s].logical_tokens as i32,
        !v.tables.contains_key(s) ==> v.cuda_len(s) == 0i32,
{
}

/// Distinct blocks: a successful admission lists no block twice in the
/// sequence's page table (shared blocks each stand for a different chunk
/// path, and fresh blocks come off the free stack).
pub proof fn law_admitted_blocks_are_distinct(v: ManagerView, seq: usize, tokens: Seq<u32>, bs: nat)
    requires
        bs > 0,
        view_wf(v),
        v.pool.consistent(),
        v.admit_prompt(seq, tokens, bs).1 is Ok,
    ensures
        v.admit_prompt(seq, tokens, bs).0.tables[seq].blocks.no_duplicates(),
{
    let n = tokens.len() / bs;
    let h = matched_depth(v, tokens, bs);
    let hits = hit_blocks(v, tokens, bs);
    lemma_matched_depth(v, tokens, bs);
    lemma_share_seq_free(v.pool, hits, seq);
    let shared = v.pool.share_seq(hits, seq);
    let m = (n - h) as nat;
    let r: nat = if tokens.len() % bs > 0 { 1 } else { 0 };
    let k = m + r;
    let popped = shared.popped(k);
    let lf = v.pool.free.len();
    let v1 = v.admit_prompt(seq, tokens, bs).0;
    assert(prompt_blocks(tokens.len(), bs) <= v.max_blocks_per_seq);
    assert(v1 == v.admit_within_capacity(seq, tokens, bs).0);
    assert(shared.free.len() >= k);
    let t = v1.tables[seq].blocks;
    assert(t == hits + popped);
    assert forall|a: int, c: int| 0 <= a < t.len() && 0 <= c < t.len() && a != c implies t[a] != t[c] by {
        if a < h && c < h {
            let pa = chunk_path(tokens, bs, (a + 1) as nat);
            let pc = chunk_path(tokens, bs, (c + 1) as nat);
            assert(live_entry(v, pa));
            assert(live_entry(v, pc));
            assert(pa.len() != pc.len());
        } else if a >= h && c >= h {
            assert(t[a] == v.pool.free[lf - 1 - (a - h)]);
            assert(t[c] == v.pool.free[lf - 1 - (c - h)]);
        } else {
            let (x, y) = if a < h { (a, c) } else { (c, a) };
            assert(t[y] == v.pool.free[lf - 1 - (y - h)]);
            assert(v.pool.free.contains(t[y]));
            assert(t[x] < v.pool.blocks.len() && v.pool.blocks[t[x] as int].ref_count > 0);
            if t[x] == t[y] {
                assert(v.pool.free.contains(t[y]) <==> v.pool.blocks[t[y] as int].ref_count == 0);
            }
        }
    }
}

/// `share_seq` leaves the free stack alone.
proof fn lemma_share_seq_free(p: PoolView, list: Seq<usize>, seq: usize)
    ensures
        p.share_seq(list, seq).free == p.free,
    decreases list.len(),
{
    if list.len() > 0 {
        lemma_share_seq_free(p, list.drop_last(), seq);
    }
}

/// Releasing `a + b` is releasing `a` and then `b`, when `a` releases fully.
proof fn lemma_release_seq_concat(p: PoolView, a: Seq<usize>, b: Seq<usize>)
    requires
        p.release_seq(a).1 is None,
    ensures
        p.release_seq(a + b) == p.release_seq(a).0.release_seq(b),
    decreases a.len(),
{
    if a.len() > 0 {
        assert((a + b).drop_first() =~= a.drop_first() + b);
        assert((a + b)[0] == a[0]);
        lemma_release_seq_concat(p.release(a[0]), a.drop_first(), b);
    } else {
        assert(a + b =~= b);
    }
}

/// Releasing distinct blocks that each hold exactly one reference frees them
/// all, pushing them on the free stack in order.
proof fn lemma_release_seq_singles(q: PoolView, list: Seq<usize>)
    requires
        list.no_duplicates(),
        forall|j: int|
            0 <= j < list.len() ==> #[trigger] list[j] < q.blocks.len() && q.blocks[list[j] as int].ref_count
                == 1,
    ensures
        q.release_seq(list).1 is None,
        q.release_seq(list).0.free == q.free + list,
        q.release_seq(list).0.blocks.len() == q.blocks.len(),
        forall|b: usize|
            b < q.blocks.len() ==> (#[trigger] q.release_seq(list).0.blocks[b as int]).ref_count == if list.contains(
                b,
            ) {
                0
            } else {
                q.blocks[b as int].ref_count
            },
    decreases list.len(),
{
    if list.len() > 0 {
        let c = list[0];
        let q1 = q.release(c);
        let rest = list.drop_first();
        assert forall|j: int|
            0 <= j < rest.len() implies #[trigger] rest[j] < q1.blocks.len() && q1.blocks[rest[j] as int].ref_count
                == 1 by {
            assert(rest[j] == list[j + 1]);
            assert(list[j + 1] != list[0]);
        }
        lemma_release_seq_singles(q1, rest);
        assert(q1.free + rest =~= q.free + list);
        assert forall|b: usize| b < q.blocks.len() implies (#[trigger] q.release_seq(list).0.blocks[b as int]).ref_count
            == if list.contains(b) {
            0
        } else {
            q.blocks[b as int].ref_count
        } by {
            if list.contains(b) && b != c {
                let j = choose|j: int| 0 <= j < list.len() && list[j] == b;
                assert(rest[j - 1] == b);
            }
            if rest.contains(b) {
                let j = choose|j: int| 0 <= j < rest.len() && rest[j] == b;
                assert(list[j + 1] == b);
            }
            if b == c {
                assert(list[0] == b);
                if rest.contains(b) {
                    let j = choose|j: int| 0 <= j < rest.len() && rest[j] == b;
                    assert(list[j + 1] == list[0]);
                }
            }
        }
    } else {
        assert(q.free + list =~= q.free);
    }
}


/// Release after admission: admitting a prompt for a sequence that has no
/// page table and then freeing that sequence succeeds and gives back every
/// block the admission took, provided the free stack is consistent. The page tables, every
/// reference count, and the number and set of free blocks are as before.
#[verifier::rlimit(40)]
pub proof fn law_admit_then_free_restores_pool(v: ManagerView, seq: usize, tokens: Seq<u32>)
    requires
        view_wf(v),
        v.pool.consistent(),
        can_admit(v, tokens),
        !v.tables.contains_key(seq),
        v.admit_prompt(seq, tokens, v.block_size as nat).1 is Ok,
    ensures
        ({
            let v1 = v.admit_prompt(seq, tokens, v.block_size as nat).0;
            let (v2, r2) = v1.release_sequence(seq);
            &&& r2 is Ok
            &&& v2.tables == v.tables
            &&& v2.pool.blocks.len() == v.pool.blocks.len()
            &&& forall|b: int|
                0 <= b < v.pool.blocks.len() ==> #[trigger] v2.pool.blocks[b].ref_count
                    == v.pool.blocks[b].ref_count
            &&& v2.pool.free.len() == v.pool.free.len()
            &&& v2.pool.free.to_set() == v.pool.free.to_set()
        }),
{
    let bs = v.block_size as nat;
    let n = tokens.len() / bs;
    let h = matched_depth(v, tokens, bs);
    let hits = hit_blocks(v, tokens, bs);
    let p0 = v.pool;
    let len = p0.blocks.len();
    let lf = p0.free.len();
    lemma_matched_depth(v, tokens, bs);
    p0.lemma_share_seq(hits, seq);
    lemma_share_seq_free(p0, hits, seq);
    let shared = p0.share_seq(hits, seq);
    let m = (n - h) as nat;
    let r: nat = if tokens.len() % bs > 0 { 1 } else { 0 };
    let k = m + r;
    let popped = shared.popped(k);
    let pool1 = shared.claim_many(m, seq, true);
    let pool2 = if r > 0 { pool1.claim_for(seq, false) } else { pool1 };
    let v1 = v.admit_prompt(seq, tokens, bs).0;
    assert(v1 == v.admit_within_capacity(seq, tokens, bs).0);
    assert(shared.free.len() >= k);
    assert(v1.pool == pool2);
    assert(v1.tables[seq].blocks == hits + popped);
    assert(free_in_range(shared));
    lemma_claim_many_refs(shared, m, seq, true);
    // Claimed blocks came off the free stack, so they hold no reference and
    // are distinct; shared blocks hold one.
    assert forall|i: int| 0 <= i < k implies #[trigger] popped[i] < len && p0.blocks[popped[i] as int].ref_count
        == 0 && p0.free.contains(popped[i]) by {
        let b = popped[i];
        assert(b == p0.free[lf - 1 - i]);
        assert(p0.free.contains(b));
        assert(b < len);
        assert(p0.free.contains(b) <==> p0.blocks[b as int].ref_count == 0);
    }
    assert(popped.no_duplicates()) by {
        assert forall|i: int, j: int| 0 <= i < k && 0 <= j < k && i != j implies popped[i] != popped[j] by {
            assert(popped[i] == p0.free[lf - 1 - i]);
            assert(popped[j] == p0.free[lf - 1 - j]);
        }
    }
    assert forall|b: usize| #[trigger] occurrences(hits, b) > 0 implies b < len && p0.blocks[b as int].ref_count > 0 by {
        crate::memory::accounting::lemma_occurs_in(hits, b);
        let j = choose|j: int| 0 <= j < hits.len() && hits[j] == b;
        assert(hits[j] < len);
    }
    assert forall|b: usize| b < len implies (#[trigger] pool2.blocks[b as int]).ref_count == if popped.contains(b) {
        1
    } else {
        shared.blocks[b as int].ref_count
    } by {
        let pm = shared.popped(m);
        if r > 0 {
            let top = pool1.free.last();
            assert(pool1.free == shared.free.take(lf - m));
            assert(top == popped[m as int]);
            if b != top {
                if popped.contains(b) {
                    let j = choose|j: int| 0 <= j < k && popped[j] == b;
                    assert(j < m);
                    assert(pm[j] == b);
                }
                if pm.contains(b) {
                    let j = choose|j: int| 0 <= j < m && pm[j] == b;
                    assert(popped[j] == b);
                }
            } else {
                assert(popped[m as int] == b);
            }
        } else {
            assert(pm =~= popped);
        }
    }
    assert(pool2.blocks.len() == len);
    assert(pool2.free == p0.free.take(lf - k)) by {
        if r > 0 {
            assert(pool1.free == p0.free.take(lf - m));
            assert(pool1.free.drop_last() =~= p0.free.take(lf - k));
        }
    }
    // Releasing the shared blocks lowers them back to their old counts.
    assert forall|j: int| 0 <= j < hits.len() implies #[trigger] hits[j] < pool2.blocks.len() by {}
    assert forall|b: usize| b < pool2.blocks.len() && #[trigger] occurrences(hits, b) > 0 implies pool2.blocks[b as int].ref_count
        > occurrences(hits, b) by {
        if popped.contains(b) {
            let i = choose|i: int| 0 <= i < k && popped[i] == b;
            assert(p0.blocks[popped[i] as int].ref_count == 0);
        }
    }
    lemma_release_seq_keeps_alive(pool2, hits);
    let q = pool2.release_seq(hits).0;
    // Releasing the claimed blocks frees them all.
    assert forall|j: int| 0 <= j < popped.len() implies #[trigger] popped[j] < q.blocks.len() && q.blocks[popped[j] as int].ref_count
        == 1 by {
        let b = popped[j];
        assert(popped.contains(b));
        if occurrences(hits, b) > 0 {
            assert(p0.blocks[b as int].ref_count > 0);
        }
    }
    lemma_release_seq_singles(q, popped);
    lemma_release_seq_concat(pool2, hits, popped);
    let (v2, r2) = v1.release_sequence(seq);
    assert(v2.pool == q.release_seq(popped).0);
    assert(v2.tables =~= v.tables);
    let f2 = v2.pool.free;
    assert(f2 == p0.free.take(lf - k) + popped);
    assert forall|x: usize| f2.contains(x) <==> p0.free.contains(x) by {
        if f2.contains(x) {
            let j = choose|j: int| 0 <= j < f2.len() && f2[j] == x;
            if j < lf - k {
                assert(p0.free[j] == x);
            } else {
                assert(popped[j - (lf - k)] == x);
            }
        }
        if p0.free.contains(x) {
            let j = choose|j: int| 0 <= j < lf && p0.free[j] == x;
            if j < lf - k {
                assert(f2[j] == x);
            } else {
                let i = lf - 1 - j;
                assert(popped[i] == x);
                assert(f2[(lf - k) + i] == x);
            }
        }
    }
    assert(f2.to_set() =~= p0.free.to_set());
    assert forall|b: int| 0 <= b < len implies #[trigger] v2.pool.blocks[b].ref_count == p0.blocks[b].ref_count by {
        let bb = b as usize;
        if popped.contains(bb) {
            let i = choose|i: int| 0 <= i < k && popped[i] == bb;
            assert(p0.blocks[popped[i] as int].ref_count == 0);
        }
    }
}

/// More tokens never need fewer blocks.
proof fn lemma_blocks_needed_monotone(a: nat, b: nat, bs: nat)
    requires
        bs > 0,
        a <= b,
    ensures
        blocks_needed(a, bs) <= blocks_needed(b, bs),
{
    if a > 0 {
        vstd::arithmetic::div_mod::lemma_div_is_ordered((a + bs - 1) as int, (b + bs - 1) as int, bs as int);
    }
}

/// Claims compose: `m1` claims followed by `m2` more are `m1 + m2` claims.
proof fn lemma_claim_many_compose(p: PoolView, m1: nat, m2: nat, seq: usize, cached: bool)
    ensures
        p.claim_many(m1, seq, cached).claim_many(m2, seq, cached) == p.claim_many(m1 + m2, seq, cached),
    decreases m2,
{
    if m2 > 0 {
        lemma_claim_many_compose(p, m1, (m2 - 1) as nat, seq, cached);
        assert((m1 + m2 - 1) as nat == m1 + (m2 - 1) as nat);
    }
}

/// The blocks popped by `m1` claims and then `m2` more are those popped by `m1 + m2`.
proof fn lemma_popped_compose(p: PoolView, m1: nat, m2: nat, seq: usize, cached: bool)
    requires
        m1 + m2 <= p.free.len(),
        free_in_range(p),
    ensures
        p.popped(m1) + p.claim_many(m1, seq, cached).popped(m2) == p.popped(m1 + m2),
{
    p.lemma_claim_many_free(m1, seq, cached);
    assert(p.popped(m1) + p.claim_many(m1, seq, cached).popped(m2) =~= p.popped(m1 + m2));
}

/// Disowning two lists in turn is disowning their concatenation.
proof fn lemma_disown_compose(owner: Seq<Option<Seq<Seq<u32>>>>, l1: Seq<usize>, l2: Seq<usize>, m2: nat)
    requires
        m2 <= l2.len(),
    ensures
        disown(disown(owner, l1, l1.len()), l2, m2) == disown(owner, l1 + l2, l1.len() + m2),
    decreases m2,
{
    if m2 == 0 {
        lemma_disown_congruent(owner, l1, l1 + l2, l1.len());
    } else {
        lemma_disown_compose(owner, l1, l2, (m2 - 1) as nat);
        assert((l1 + l2)[l1.len() + m2 - 1] == l2[m2 - 1]);
        assert((l1.len() + m2 - 1) as nat == l1.len() + (m2 - 1) as nat);
    }
}

/// Growing a sequence by `a` tokens and then by `b` is growing it by
/// `a + b`, when its page table holds no block past those its tokens need.
proof fn lemma_grow_compose(c: ManagerView, seq: usize, a: usize, b: usize)
    requires
        free_in_range(c.pool),
        c.block_size > 0,
        c.tables.contains_key(seq),
        c.tables[seq].blocks.len() <= blocks_needed(c.tables[seq].logical_tokens as nat, c.block_size as nat),
        c.tables[seq].logical_tokens + a + b <= usize::MAX,
        c.grow(seq, a).1 is Ok,
        c.grow(seq, a).0.grow(seq, b).1 is Ok,
    ensures
        c.grow(seq, (a + b) as usize) == c.grow(seq, a).0.grow(seq, b),
        c.grow(seq, a).0.tables[seq].blocks.len() == blocks_needed(
            (c.tables[seq].logical_tokens + a) as nat,
            c.block_size as nat,
        ),
{
    let bs = c.block_size as nat;
    let tv = c.tables[seq];
    let t = tv.logical_tokens as nat;
    let l = tv.blocks.len();
    let ta = (t + a) as nat;
    let tab = (t + a + b) as nat;
    let n1 = blocks_needed(ta, bs);
    let n2 = blocks_needed(tab, bs);
    lemma_blocks_needed_monotone(t, ta, bs);
    lemma_blocks_needed_monotone(ta, tab, bs);
    let m1 = (n1 - l) as nat;
    let m2 = (n2 - n1) as nat;
    let c1 = c.grow(seq, a).0;
    assert(c1.pool == c.pool.claim_many(m1, seq, false));
    c.pool.lemma_claim_many_free(m1, seq, false);
    assert(c1.tables[seq].blocks == tv.blocks + c.pool.popped(m1));
    assert(c1.tables[seq].blocks.len() == n1);
    assert(free_in_range(c1.pool));
    let c2 = c1.grow(seq, b).0;
    assert(c2.pool == c1.pool.claim_many(m2, seq, false));
    assert(m1 + m2 <= c.pool.free.len());
    lemma_claim_many_compose(c.pool, m1, m2, seq, false);
    lemma_popped_compose(c.pool, m1, m2, seq, false);
    lemma_disown_compose(c.owner, c.pool.popped(m1), c1.pool.popped(m2), m2);
    assert(m1 + m2 == (n2 - l) as nat);
    assert(tv.blocks + c.pool.popped(m1) + c1.pool.popped(m2) =~= tv.blocks + c.pool.popped(m1 + m2));
    let c3 = c.grow(seq, (a + b) as usize).0;
    assert(c3.tables =~= c2.tables);
}

/// Blocks a token count needs: its whole blocks, plus one for a partly
/// filled last block.
proof fn lemma_blocks_needed_split(t: nat, bs: nat)
    requires
        bs > 0,
    ensures
        t % bs == 0 ==> blocks_needed(t, bs) == t / bs,
        t % bs != 0 ==> blocks_needed(t, bs) == t / bs + 1,
{
    let q = t / bs;
    let r = t % bs;
    vstd::arithmetic::div_mod::lemma_fundamental_div_mod(t as int, bs as int);
    if t == 0 {
        vstd::arithmetic::div_mod::lemma_div_of0(bs as int);
    } else if r == 0 {
        assert(t + bs - 1 == bs * q + (bs - 1));
        vstd::arithmetic::div_mod::lemma_div_multiples_vanish_fancy(q as int, bs - 1, bs as int);
    } else {
        assert(t + bs - 1 == bs * (q + 1) + (r - 1)) by (nonlinear_arith)
            requires
                t == bs * q + r,
        ;
        vstd::arithmetic::div_mod::lemma_div_multiples_vanish_fancy(q + 1 as int, r - 1, bs as int);
    }
}

/// After a successful growth by `a`, a further append of `b` needs no copy:
/// the block at the sequence's next token position is one the growth
/// claimed, or the one at its former partly filled position, which is
/// assumed to hold at most one reference.
proof fn lemma_grow_needs_no_copy(c: ManagerView, seq: usize, a: usize, b: usize)
    requires
        free_in_range(c.pool),
        c.block_size > 0,
        c.tables.contains_key(seq),
        c.tables[seq].blocks.len() <= blocks_needed(c.tables[seq].logical_tokens as nat, c.block_size as nat),
        c.tables[seq].logical_tokens + a <= usize::MAX,
        forall|j: int| 0 <= j < c.tables[seq].blocks.len() ==> #[trigger] c.tables[seq].blocks[j] < c.pool.blocks.len(),
        c.grow(seq, a).1 is Ok,
        b > 0 && c.tables[seq].logical_tokens % c.block_size != 0 && c.tables[seq].logical_tokens
            / c.block_size < c.tables[seq].blocks.len() ==> c.pool.blocks[c.tables[seq].blocks[(
        c.tables[seq].logical_tokens / c.block_size) as int] as int].ref_count <= 1,
    ensures
        !c.grow(seq, a).0.cow_needed(seq, b),
{
    let bs = c.block_size as nat;
    let tv = c.tables[seq];
    let t = tv.logical_tokens as nat;
    let l = tv.blocks.len();
    let ta = (t + a) as nat;
    let n1 = blocks_needed(ta, bs);
    lemma_blocks_needed_monotone(t, ta, bs);
    let m1 = (n1 - l) as nat;
    let c1 = c.grow(seq, a).0;
    c.pool.lemma_claim_many_free(m1, seq, false);
    lemma_claim_many_refs(c.pool, m1, seq, false);
    assert(c1.pool == c.pool.claim_many(m1, seq, false));
    assert(c1.block_size == c.block_size);
    assert(c1.tables[seq].blocks == tv.blocks + c.pool.popped(m1));
    assert(c1.tables[seq].blocks.len() == n1);
    assert(c1.tables[seq].logical_tokens == ta);
    if b > 0 && ta % bs != 0 && ta / bs < n1 {
        let i = ta / bs;
        let blk = c1.tables[seq].blocks[i as int];
        if i >= l {
            assert(blk == c.pool.popped(m1)[i - l]);
            assert(c.pool.popped(m1).contains(blk));
            assert(blk < c.pool.blocks.len());
            assert(c1.pool.blocks[blk as int].ref_count == 1);
        } else {
            lemma_blocks_needed_split(t, bs);
            vstd::arithmetic::div_mod::lemma_div_is_ordered(t as int, ta as int, bs as int);
            assert(i == t / bs);
            assert(t % bs != 0);
            assert(blk == tv.blocks[i as int]);
            assert(c.pool.blocks[blk as int].ref_count <= 1);
            assert(blk < c.pool.blocks.len());
            assert(c1.pool.blocks[blk as int].ref_count <= 1);
        }
        assert(!c1.cow_needed(seq, b));
    }
}

/// Appends compose: appending `a` tokens to a sequence and then `b` more
/// leaves the manager exactly as appending `a + b` at once, when all three
/// calls succeed and the sequence's page table holds no block past those
/// its tokens need.
#[verifier::rlimit(40)]
pub proof fn law_appends_compose(v: ManagerView, seq: usize, a: usize, b: usize)
    requires
        view_wf(v),
        v.pool.consistent(),
        v.block_size > 0,
        v.tables.contains_key(seq),
        v.tables[seq].blocks.len() <= blocks_needed(v.tables[seq].logical_tokens as nat, v.block_size as nat),
        v.tables[seq].logical_tokens + a + b <= usize::MAX,
        v.append(seq, a).1 is Ok,
        v.append(seq, a).0.append(seq, b).1 is Ok,
        v.append(seq, (a + b) as usize).1 is Ok,
    ensures
        v.append(seq, (a + b) as usize).0 == v.append(seq, a).0.append(seq, b).0,
{
    let bs = v.block_size as nat;
    let tv = v.tables[seq];
    let t = tv.logical_tokens as nat;
    let l = tv.blocks.len();
    let ab = (a + b) as usize;
    let v1 = v.append(seq, a).0;
    if v.cow_needed(seq, a) {
        assert(v.cow_needed(seq, ab));
        let c = v.copy_partial_block(seq);
        let j = t / bs;
        let old_b = tv.blocks[j as int];
        let fresh = v.pool.free.last();
        assert(v.pool.free.len() > 0);
        assert(fresh < v.pool.blocks.len());
        assert(v.pool.free.contains(fresh));
        assert(v.pool.blocks[fresh as int].ref_count == 0);
        assert(fresh != old_b);
        assert(old_b < v.pool.blocks.len());
        assert(c.tables[seq].blocks.len() == l);
        assert(c.tables[seq].logical_tokens == tv.logical_tokens);
        assert(c.tables[seq].blocks[j as int] == fresh);
        assert(c.pool.blocks[fresh as int].ref_count == 1);
        assert(c.pool.free == v.pool.free.drop_last());
        assert(free_in_range(c.pool));
        assert(v1 == c.grow(seq, a).0);
        lemma_grow_needs_no_copy(c, seq, a, b);
        lemma_grow_compose(c, seq, a, b);
    } else if v.cow_needed(seq, ab) {
        assert(a == 0);
        lemma_blocks_needed_split(t, bs);
        assert(l == blocks_needed(t, bs));
        assert(v1.pool == v.pool);
        assert(v1.owner == v.owner);
        assert(v1.tables =~= v.tables);
        assert(v1 == v);
    } else {
        assert(free_in_range(v.pool));
        assert(v1 == v.grow(seq, a).0);
        lemma_grow_needs_no_copy(v, seq, a, b);
        lemma_grow_compose(v, seq, a, b);
    }
}

/// Speculative undo: appending tokens to a sequence whose page table holds
/// exactly the blocks its tokens need, and whose partly filled block (if any)
/// it does not share, and then rolling it back to its former token count,
/// restores the page tables, the free stack (in order) and every reference
/// count, provided the free stack is consistent.
#[verifier::rlimit(30)]
#[verifier::spinoff_prover]
pub proof fn law_append_then_rollback_restores(v: ManagerView, seq: usize, n: usize)
    requires
        view_wf(v),
        v.pool.consistent(),
        v.block_size > 0,
        v.tables.contains_key(seq),
        v.tables[seq].blocks.len() == blocks_needed(v.tables[seq].logical_tokens as nat, v.block_size as nat),
        !v.cow_needed(seq, n),
        v.append(seq, n).1 is Ok,
    ensures
        ({
            let v1 = v.append(seq, n).0;
            let (v2, r2) = v1.rollback(seq, v.tables[seq].logical_tokens);
            &&& r2 is Ok
            &&& v2.tables == v.tables
            &&& v2.pool.free == v.pool.free
            &&& v2.pool.blocks.len() == v.pool.blocks.len()
            &&& forall|b: int|
                0 <= b < v.pool.blocks.len() ==> #[trigger] v2.pool.blocks[b].ref_count
                    == v.pool.blocks[b].ref_count
        }),
{
    let bs = v.block_size as nat;
    let t = v.tables[seq];
    let p0 = v.pool;
    assert(v.append(seq, n) == v.grow(seq, n));
    let len = p0.blocks.len();
    let lf = p0.free.len();
    let new_tokens = (t.logical_tokens + n) as nat;
    let needed = blocks_needed(new_tokens, bs);
    lemma_blocks_needed_monotone(t.logical_tokens as nat, new_tokens, bs);
    let k: nat = (needed - t.blocks.len()) as nat;
    assert(k <= lf);
    let popped = p0.popped(k);
    let pool1 = p0.claim_many(k, seq, false);
    let v1 = v.append(seq, n).0;
    assert(v1.pool == pool1);
    assert(v1.tables[seq].blocks == t.blocks + popped);
    lemma_claim_many_refs(p0, k, seq, false);
    assert forall|i: int| 0 <= i < k implies #[trigger] popped[i] < len && p0.blocks[popped[i] as int].ref_count
        == 0 by {
        let b = popped[i];
        assert(b == p0.free[lf - 1 - i]);
        assert(p0.free.contains(b));
        assert(p0.free.contains(b) <==> p0.blocks[b as int].ref_count == 0);
    }
    let list = popped.reverse();
    let blocks1 = t.blocks + popped;
    let keep = t.blocks.len();
    assert(blocks1.subrange(keep as int, blocks1.len() as int) =~= popped);
    assert(blocks1.take(keep as int) =~= t.blocks);
    assert(list.no_duplicates()) by {
        assert forall|i: int, j: int| 0 <= i < k && 0 <= j < k && i != j implies list[i] != list[j] by {
            assert(list[i] == p0.free[lf - k + i]);
            assert(list[j] == p0.free[lf - k + j]);
        }
    }
    assert forall|j: int| 0 <= j < list.len() implies #[trigger] list[j] < pool1.blocks.len() && pool1.blocks[list[j] as int].ref_count
        == 1 by {
        assert(list[j] == popped[k - 1 - j]);
        assert(popped.contains(list[j]));
    }
    lemma_release_seq_singles(pool1, list);
    let (v2, r2) = v1.rollback(seq, t.logical_tokens);
    assert(v2.pool == pool1.release_seq(list).0);
    assert(v2.pool.free =~= p0.free) by {
        assert(pool1.free == p0.free.take(lf - k));
        assert forall|j: int| 0 <= j < k implies list[j] == p0.free[lf - k + j] by {}
    }
    assert(v2.tables =~= v.tables);
    assert forall|b: int| 0 <= b < len implies #[trigger] v2.pool.blocks[b].ref_count == p0.blocks[b].ref_count by {
        let bb = b as usize;
        if list.contains(bb) {
            let j = choose|j: int| 0 <= j < list.len() && list[j] == bb;
            assert(popped[k - 1 - j] == bb);
        }
        if popped.contains(bb) {
            let i = choose|i: int| 0 <= i < k && popped[i] == bb;
            assert(list[k - 1 - i] == bb);
        }
    }
}

} // verus!
