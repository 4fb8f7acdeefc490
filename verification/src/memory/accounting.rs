//! Free-stack accounting: which operations keep the free stack listing
//! exactly the unreferenced blocks, each once, and what that guarantees.

use vstd::prelude::*;
use crate::memory::model::{
    PoolView, ManagerView, occurrences, view_wf, hit_blocks, matched_depth, chunk_path,
    lemma_matched_depth, disown, keeps_live_entries, live_entry, prompt_blocks, blocks_needed,
    lemma_owner_len, lemma_extend_prefix_old, lemma_own_chunks_other,
};

verus! {

/// Every block number on the free stack names a block of the pool.
pub open spec fn free_in_range(p: PoolView) -> bool {
    forall|j: int| 0 <= j < p.free.len() ==> #[trigger] p.free[j] < p.blocks.len()
}

/// Every block of `list` names a block of the pool that holds a reference.
pub open spec fn all_live(p: PoolView, list: Seq<usize>) -> bool {
    forall|j: int|
        0 <= j < list.len() ==> #[trigger] list[j] < p.blocks.len() && p.blocks[list[j] as int].ref_count
            > 0
}

/// Claiming the top of a consistent free stack keeps it consistent.
pub proof fn lemma_claim_for_consistent(p: PoolView, seq: usize, cached: bool)
    requires
        p.consistent(),
        free_in_range(p),
        p.free.len() > 0,
    ensures
        p.claim_for(seq, cached).consistent(),
        free_in_range(p.claim_for(seq, cached)),
        p.claim_for(seq, cached).free.len() == p.free.len() - 1,
{
    let b = p.free.last();
    let q = p.claim_for(seq, cached);
    assert(p.free.contains(b));
    assert(q.free =~= p.free.drop_last());
    assert forall|c: usize| c < q.blocks.len() implies (#[trigger] q.free.contains(c) <==> q.blocks[
        c as int
    ].ref_count == 0) by {
        if c == b {
            if q.free.contains(c) {
                let k = choose|k: int| 0 <= k < q.free.len() && q.free[k] == c;
                assert(p.free[k] == p.free[p.free.len() - 1]);
            }
        } else {
            if p.free.contains(c) {
                let k = choose|k: int| 0 <= k < p.free.len() && p.free[k] == c;
                assert(k != p.free.len() - 1);
                assert(q.free[k] == c);
            }
            if q.free.contains(c) {
                let k = choose|k: int| 0 <= k < q.free.len() && q.free[k] == c;
                assert(p.free[k] == c);
            }
        }
    }
}

/// The same for the allocator's own claim.
pub proof fn lemma_claim_top_consistent(p: PoolView)
    requires
        p.consistent(),
        free_in_range(p),
        p.free.len() > 0,
    ensures
        p.claim_top().consistent(),
        free_in_range(p.claim_top()),
{
    let b = p.free.last();
    let q = p.claim_top();
    assert(p.free.contains(b));
    assert forall|c: usize| c < q.blocks.len() implies (#[trigger] q.free.contains(c) <==> q.blocks[
        c as int
    ].ref_count == 0) by {
        if c == b {
            if q.free.contains(c) {
                let k = choose|k: int| 0 <= k < q.free.len() && q.free[k] == c;
                assert(p.free[k] == p.free[p.free.len() - 1]);
            }
        } else {
            if p.free.contains(c) {
                let k = choose|k: int| 0 <= k < p.free.len() && p.free[k] == c;
                assert(k != p.free.len() - 1);
                assert(q.free[k] == c);
            }
            if q.free.contains(c) {
                let k = choose|k: int| 0 <= k < q.free.len() && q.free[k] == c;
                assert(p.free[k] == c);
            }
        }
    }
}

/// Any number of claims that the free stack can serve keep it consistent.
pub proof fn lemma_claim_many_consistent(p: PoolView, k: nat, seq: usize, cached: bool)
    requires
        p.consistent(),
        free_in_range(p),
        k <= p.free.len(),
    ensures
        p.claim_many(k, seq, cached).consistent(),
        free_in_range(p.claim_many(k, seq, cached)),
        p.claim_many(k, seq, cached).free.len() == p.free.len() - k,
    decreases k,
{
    if k > 0 {
        lemma_claim_many_consistent(p, (k - 1) as nat, seq, cached);
        lemma_claim_for_consistent(p.claim_many((k - 1) as nat, seq, cached), seq, cached);
    }
}

/// Releasing a referenced block keeps the free stack consistent.
pub proof fn lemma_release_consistent(p: PoolView, b: usize)
    requires
        p.consistent(),
        free_in_range(p),
        p.can_release(b),
    ensures
        p.release(b).consistent(),
        free_in_range(p.release(b)),
{
    let q = p.release(b);
    assert(!p.free.contains(b));
    if p.blocks[b as int].ref_count == 1 {
        assert forall|i: int, j: int|
            0 <= i < q.free.len() && 0 <= j < q.free.len() && i != j implies q.free[i]
            != q.free[j] by {
            if i == p.free.len() as int {
                assert(p.free.contains(p.free[j]));
            } else if j == p.free.len() as int {
                assert(p.free.contains(p.free[i]));
            }
        }
        assert forall|c: usize| c < q.blocks.len() implies (#[trigger] q.free.contains(c) <==> q.blocks[
            c as int
        ].ref_count == 0) by {
            if c == b {
                assert(q.free[p.free.len() as int] == b);
            } else {
                if p.free.contains(c) {
                    let k = choose|k: int| 0 <= k < p.free.len() && p.free[k] == c;
                    assert(q.free[k] == c);
                }
                if q.free.contains(c) {
                    let k = choose|k: int| 0 <= k < q.free.len() && q.free[k] == c;
                    assert(p.free[k] == c);
                }
            }
        }
    }
}

/// A release run keeps the free stack consistent, whether or not it fails.
pub proof fn lemma_release_seq_consistent(p: PoolView, list: Seq<usize>)
    requires
        p.consistent(),
        free_in_range(p),
    ensures
        p.release_seq(list).0.consistent(),
        free_in_range(p.release_seq(list).0),
    decreases list.len(),
{
    if list.len() > 0 && p.can_release(list[0]) {
        lemma_release_consistent(p, list[0]);
        lemma_release_seq_consistent(p.release(list[0]), list.drop_first());
    }
}

/// Adding references to referenced blocks keeps the free stack consistent.
pub proof fn lemma_bump_seq_consistent(p: PoolView, list: Seq<usize>)
    requires
        p.consistent(),
        free_in_range(p),
        all_live(p, list),
        forall|b: usize|
            b < p.blocks.len() ==> p.blocks[b as int].ref_count + #[trigger] occurrences(list, b)
                <= usize::MAX,
    ensures
        p.bump_seq(list).consistent(),
        free_in_range(p.bump_seq(list)),
{
    p.lemma_bump_seq(list);
    let q = p.bump_seq(list);
    assert forall|c: usize| c < q.blocks.len() implies (#[trigger] q.free.contains(c) <==> q.blocks[
        c as int
    ].ref_count == 0) by {
        assert(q.blocks[c as int].ref_count == p.blocks[c as int].ref_count + occurrences(list, c));
        if occurrences(list, c) > 0 {
            lemma_occurs_in(list, c);
            let j = choose|j: int| 0 <= j < list.len() && list[j] == c;
            assert(p.blocks[list[j] as int].ref_count > 0);
        }
    }
    assert forall|cc: usize| cc < q.blocks.len() implies (#[trigger] q.blocks[cc as int].is_free <==> q.blocks[
        cc as int
    ].ref_count == 0) by {
        assert(q.blocks[cc as int].ref_count == p.blocks[cc as int].ref_count + occurrences(list, cc));
        if occurrences(list, cc) > 0 {
            lemma_occurs_in(list, cc);
            let j = choose|j: int| 0 <= j < list.len() && list[j] == cc;
            assert(p.blocks[list[j] as int].ref_count > 0);
        }
    }
}

/// Sharing referenced blocks keeps the free stack consistent.
pub proof fn lemma_share_seq_consistent(p: PoolView, list: Seq<usize>, seq: usize)
    requires
        p.consistent(),
        free_in_range(p),
        all_live(p, list),
        forall|b: usize|
            b < p.blocks.len() ==> p.blocks[b as int].ref_count + #[trigger] occurrences(list, b)
                <= usize::MAX,
    ensures
        p.share_seq(list, seq).consistent(),
        free_in_range(p.share_seq(list, seq)),
{
    p.lemma_share_seq(list, seq);
    let q = p.share_seq(list, seq);
    assert forall|c: usize| c < q.blocks.len() implies (#[trigger] q.free.contains(c) <==> q.blocks[
        c as int
    ].ref_count == 0) by {
        assert(q.blocks[c as int].ref_count == p.blocks[c as int].ref_count + occurrences(list, c));
        if occurrences(list, c) > 0 {
            lemma_occurs_in(list, c);
            let j = choose|j: int| 0 <= j < list.len() && list[j] == c;
            assert(p.blocks[list[j] as int].ref_count > 0);
        }
    }
    assert forall|cc: usize| cc < q.blocks.len() implies (#[trigger] q.blocks[cc as int].is_free <==> q.blocks[
        cc as int
    ].ref_count == 0) by {
        assert(q.blocks[cc as int].ref_count == p.blocks[cc as int].ref_count + occurrences(list, cc));
        if occurrences(list, cc) > 0 {
            lemma_occurs_in(list, cc);
            let j = choose|j: int| 0 <= j < list.len() && list[j] == cc;
            assert(p.blocks[list[j] as int].ref_count > 0);
        }
    }
}

/// Admitting a prompt keeps the free stack consistent: it shares only blocks
/// that hold a reference and claims the others from the top of the stack.
pub proof fn lemma_admit_prompt_consistent(v: ManagerView, seq: usize, tokens: Seq<u32>, bs: nat)
    requires
        bs > 0,
        view_wf(v),
        v.pool.consistent(),
        forall|b: usize|
            b < v.pool.blocks.len() ==> v.pool.blocks[b as int].ref_count + #[trigger] occurrences(
                hit_blocks(v, tokens, bs),
                b,
            ) <= usize::MAX,
    ensures
        v.admit_prompt(seq, tokens, bs).0.pool.consistent(),
{
    let hits = hit_blocks(v, tokens, bs);
    lemma_matched_depth(v, tokens, bs);
    assert(all_live(v.pool, hits));
    lemma_share_seq_consistent(v.pool, hits, seq);
    let shared = v.pool.share_seq(hits, seq);
    let n = tokens.len() / bs;
    let h = matched_depth(v, tokens, bs);
    let m = (n - h) as nat;
    let r: nat = if tokens.len() % bs > 0 { 1 } else { 0 };
    let k: nat = if shared.free.len() < m + r { shared.free.len() } else { m + r };
    let km: nat = if k < m { k } else { m };
    lemma_claim_many_consistent(shared, km, seq, true);
    if k > m {
        lemma_claim_for_consistent(shared.claim_many(km, seq, true), seq, false);
    }
}

/// A value at some position of a sequence occurs in it.
pub proof fn lemma_occurs_in_converse(s: Seq<usize>, j: int)
    requires
        0 <= j < s.len(),
    ensures
        occurrences(s, s[j]) > 0,
    decreases s.len(),
{
    if j < s.len() - 1 {
        lemma_occurs_in_converse(s.drop_last(), j);
    }
}

/// A value that occurs in a sequence is at some position of it.
pub proof fn lemma_occurs_in(s: Seq<usize>, b: usize)
    requires
        occurrences(s, b) > 0,
    ensures
        exists|j: int| 0 <= j < s.len() && s[j] == b,
    decreases s.len(),
{
    if s.last() != b {
        lemma_occurs_in(s.drop_last(), b);
        let j = choose|j: int| 0 <= j < s.drop_last().len() && s.drop_last()[j] == b;
        assert(s[j] == b);
    } else {
        assert(s[s.len() - 1] == b);
    }
}

/// `disown` leaves the owners of the blocks it does not claim.
pub proof fn lemma_disown_other(owner: Seq<Option<Seq<Seq<u32>>>>, list: Seq<usize>, k: nat, b: usize)
    requires
        b < owner.len(),
        forall|j: int| 0 <= j < k ==> #[trigger] list[j] < owner.len() && list[j] != b,
    ensures
        disown(owner, list, k)[b as int] == owner[b as int],
        disown(owner, list, k).len() == owner.len(),
    decreases k,
{
    if k > 0 {
        lemma_disown_other(owner, list, (k - 1) as nat, b);
        assert(list[k - 1] < owner.len() && list[k - 1] != b);
    }
}

/// Admission keeps every live entry whose block stays referenced: it records
/// only paths that were not live entries, and claims only unreferenced blocks.
pub proof fn lemma_admit_keeps_live_entries(v: ManagerView, seq: usize, tokens: Seq<u32>, bs: nat)
    requires
        bs > 0,
        view_wf(v),
        v.pool.consistent(),
    ensures
        keeps_live_entries(v, v.admit_prompt(seq, tokens, bs).0),
{
    let w = v.admit_prompt(seq, tokens, bs).0;
    if prompt_blocks(tokens.len(), bs) <= v.max_blocks_per_seq {
        let n = tokens.len() / bs;
        let h = matched_depth(v, tokens, bs);
        let hits = hit_blocks(v, tokens, bs);
        lemma_matched_depth(v, tokens, bs);
        let shared = v.pool.share_seq(hits, seq);
        lemma_share_seq_free_stack(v.pool, hits, seq);
        let m = (n - h) as nat;
        let r: nat = if tokens.len() % bs > 0 { 1 } else { 0 };
        let k: nat = if shared.free.len() < m + r { shared.free.len() } else { m + r };
        let km: nat = if k < m { k } else { m };
        let popped = shared.popped(k);
        let lf = v.pool.free.len();
        assert(w == v.admit_within_capacity(seq, tokens, bs).0);
        assert forall|j: int| 0 <= j < k implies #[trigger] popped[j] < v.owner.len() && v.pool.blocks[popped[j] as int].ref_count == 0 by {
            let f = popped[j];
            assert(f == v.pool.free[lf - 1 - j]);
            assert(v.pool.free.contains(f));
            assert(v.pool.free.contains(f) <==> v.pool.blocks[f as int].ref_count == 0);
        }
        lemma_owner_len(v, v.owner, tokens, bs, h, popped, km);
        assert forall|p: Seq<Seq<u32>>|
            #[trigger] live_entry(v, p) && v.prefix[p] < w.pool.blocks.len() && w.pool.blocks[v.prefix[p] as int].ref_count
                > 0 implies live_entry(w, p) && w.prefix[p] == v.prefix[p] by {
            let b = v.prefix[p];
            lemma_extend_prefix_old(v, v.prefix, tokens, bs, h, popped, km, p);
            assert forall|j: int| 0 <= j < km implies popped[j] != b by {}
            lemma_own_chunks_other(v, v.owner, tokens, bs, h, popped, km, b);
            if k > m {
                assert(popped[m as int] != b);
            }
            assert(w.owner[b as int] == v.owner[b as int]);
        }
    }
}

/// Appending keeps every live entry whose block stays referenced: the index
/// does not change, and only unreferenced blocks change owner.
pub proof fn lemma_append_keeps_live_entries(v: ManagerView, seq: usize, n: usize)
    requires
        view_wf(v),
        v.pool.consistent(),
    ensures
        keeps_live_entries(v, v.append(seq, n).0),
{
    let w = v.append(seq, n).0;
    let lf = v.pool.free.len();
    if v.tables.contains_key(seq) && blocks_needed((v.tables[seq].logical_tokens + n) as nat, v.block_size as nat)
        <= v.max_blocks_per_seq && !(v.cow_needed(seq, n) && lf == 0) {
        let u = if v.cow_needed(seq, n) { v.copy_partial_block(seq) } else { v };
        assert(w == u.grow(seq, n).0);
        // The free stack after a copy is the old one without its top.
        if v.cow_needed(seq, n) {
            let t = v.tables[seq];
            let sb = t.blocks[(t.logical_tokens / v.block_size) as int];
            let fresh = v.pool.free.last();
            assert(v.pool.free.contains(fresh));
            assert(v.pool.free.contains(fresh) <==> v.pool.blocks[fresh as int].ref_count == 0);
            assert(sb < v.pool.blocks.len());
            assert(sb != fresh);
            assert(u.pool.free =~= v.pool.free.drop_last());
        }
        let ulf = u.pool.free.len();
        assert forall|j: int| 0 <= j < ulf implies #[trigger] u.pool.free[j] == v.pool.free[j] by {}
        let tk = u.tables[seq];
        let new_tokens = (tk.logical_tokens + n) as nat;
        let needed = blocks_needed(new_tokens, u.block_size as nat);
        let to_alloc: nat = if needed > tk.blocks.len() { (needed - tk.blocks.len()) as nat } else { 0 };
        let k: nat = if ulf < to_alloc { ulf } else { to_alloc };
        let popped = u.pool.popped(k);
        assert forall|j: int| 0 <= j < k implies #[trigger] popped[j] < v.owner.len() && v.pool.blocks[popped[j] as int].ref_count == 0 by {
            let f = popped[j];
            assert(f == v.pool.free[ulf - 1 - j]);
            assert(v.pool.free.contains(f));
            assert(v.pool.free.contains(f) <==> v.pool.blocks[f as int].ref_count == 0);
        }
        assert forall|p: Seq<Seq<u32>>|
            #[trigger] live_entry(v, p) && v.prefix[p] < w.pool.blocks.len() && w.pool.blocks[v.prefix[p] as int].ref_count
                > 0 implies live_entry(w, p) && w.prefix[p] == v.prefix[p] by {
            let b = v.prefix[p];
            if v.cow_needed(seq, n) {
                let fresh = v.pool.free.last();
                assert(v.pool.free.contains(fresh));
                assert(v.pool.free.contains(fresh) <==> v.pool.blocks[fresh as int].ref_count == 0);
                assert(u.owner[b as int] == v.owner[b as int]);
            }
            assert forall|j: int| 0 <= j < k implies #[trigger] popped[j] < u.owner.len() && popped[j] != b by {}
            lemma_disown_other(u.owner, popped, k, b);
            assert(w.owner[b as int] == v.owner[b as int]);
        }
    }
}

/// `share_seq` leaves the free stack alone.
pub proof fn lemma_share_seq_free_stack(p: PoolView, list: Seq<usize>, seq: usize)
    ensures
        p.share_seq(list, seq).free == p.free,
    decreases list.len(),
{
    if list.len() > 0 {
        lemma_share_seq_free_stack(p, list.drop_last(), seq);
    }
}

} // verus!
