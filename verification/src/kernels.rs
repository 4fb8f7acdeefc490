//! Shape checks guarding the paged-attention kernel launch: every buffer the
//! kernel reads or writes must be large enough for the rows, blocks and table
//! entries it will touch.

use vstd::prelude::*;

verus! {

/// Number of table entries a sequence of `len` tokens reads, `bs` tokens per block.
pub open spec fn row_blocks(len: nat, bs: nat) -> nat {
    len / bs + if len % bs > 0 { 1nat } else { 0nat }
}

/// Whether block number `e` names a block lying wholly inside caches of
/// `k_len` and `v_len` values, each block taking `stride` values.
pub open spec fn entry_in_cache(e: i32, stride: int, k_len: int, v_len: int) -> bool {
    &&& e >= 0
    &&& (e + 1) * stride <= k_len
    &&& (e + 1) * stride <= v_len
}

/// Whether sequence `i` has a usable length and its table row names only
/// blocks inside the caches.
pub open spec fn row_fits(
    block_tables: Seq<i32>,
    seq_lens: Seq<i32>,
    i: int,
    max_blocks_per_seq: nat,
    block_size: nat,
    stride: int,
    k_len: int,
    v_len: int,
) -> bool {
    let len = seq_lens[i];
    &&& len >= 0
    &&& len > 0 ==> block_size > 0
    &&& len > 0 ==> row_blocks(len as nat, block_size) <= max_blocks_per_seq
    &&& len > 0 ==> forall|j: int|
        0 <= j < row_blocks(len as nat, block_size) ==> #[trigger] entry_in_cache(
            block_tables[i * max_blocks_per_seq + j],
            stride,
            k_len,
            v_len,
        )
}

/// Whether every one of the first `n` sequences fits.
pub open spec fn rows_fit(
    block_tables: Seq<i32>,
    seq_lens: Seq<i32>,
    n: int,
    max_blocks_per_seq: nat,
    block_size: nat,
    stride: int,
    k_len: int,
    v_len: int,
) -> bool {
    forall|i: int|
        0 <= i < n ==> #[trigger] row_fits(
            block_tables,
            seq_lens,
            i,
            max_blocks_per_seq,
            block_size,
            stride,
            k_len,
            v_len,
        )
}

/// A token position `j * bs` below `len` falls in one of the `row_blocks`
/// blocks of a sequence of `len` tokens.
proof fn lemma_in_row_blocks(j: int, len: int, bs: int)
    requires
        0 <= j,
        bs > 0,
        j * bs < len,
    ensures
        j < row_blocks(len as nat, bs as nat),
{
    vstd::arithmetic::div_mod::lemma_fundamental_div_mod(len, bs);
    let q = len / bs;
    let r = len % bs;
    assert(j < q + if r > 0 { 1int } else { 0int }) by (nonlinear_arith)
        requires
            0 <= j,
            bs > 0,
            j * bs < len,
            len == bs * q + r,
            0 <= r < bs,
    {
        if r > 0 {
            if j >= q + 1 {
                assert(j * bs >= (q + 1) * bs);
            }
        } else {
            if j >= q {
                assert(j * bs >= q * bs);
            }
        }
    }
}

/// Checked launches stay inside the caches: when every row fits, sequence
/// `i < n` has a non-negative length, and a block position `j` holding one
/// of its tokens (`j * block_size` below its length) lies within the
/// sequence's row, with table entry `i * max_blocks_per_seq + j` a
/// non-negative block number whose `stride` values end within both the key
/// and the value cache.
pub proof fn law_checked_rows_stay_in_caches(
    block_tables: Seq<i32>,
    seq_lens: Seq<i32>,
    n: int,
    max_blocks_per_seq: nat,
    block_size: nat,
    stride: int,
    k_len: int,
    v_len: int,
    i: int,
    j: int,
)
    requires
        rows_fit(block_tables, seq_lens, n, max_blocks_per_seq, block_size, stride, k_len, v_len),
        0 <= i < n,
    ensures
        seq_lens[i] >= 0,
        0 <= j && j * block_size < seq_lens[i] ==> {
            &&& j < max_blocks_per_seq
            &&& block_tables[i * max_blocks_per_seq + j] >= 0
            &&& (block_tables[i * max_blocks_per_seq + j] + 1) * stride <= k_len
            &&& (block_tables[i * max_blocks_per_seq + j] + 1) * stride <= v_len
        },
{
    assert(row_fits(block_tables, seq_lens, i, max_blocks_per_seq, block_size, stride, k_len, v_len));
    if 0 <= j && j * block_size < seq_lens[i] {
        let len = seq_lens[i];
        assert(j * block_size >= 0) by (nonlinear_arith)
            requires
                0 <= j,
        ;
        assert(len > 0);
        assert(block_size > 0);
        lemma_in_row_blocks(j, len as int, block_size as int);
        assert(entry_in_cache(block_tables[i * max_blocks_per_seq + j], stride, k_len, v_len));
    }
}

proof fn lemma_row_index(i: int, j: int, width: int, rows: int)
    requires
        0 <= i < rows,
        0 <= j < width,
    ensures
        0 <= i * width + j < rows * width,
{
    assert(i * width + j < rows * width) by (nonlinear_arith)
        requires
            0 <= i < rows,
            0 <= j < width,
    ;
    assert(0 <= i * width) by (nonlinear_arith)
        requires
            0 <= i,
            0 <= width,
    ;
}

proof fn lemma_fits_quotient(e: int, stride: int, len: int)
    requires
        e >= 0,
        stride > 0,
        len >= 0,
    ensures
        ((e + 1) * stride <= len) == (e < len / stride),
{
    vstd::arithmetic::div_mod::lemma_fundamental_div_mod(len, stride);
    let qq = len / stride;
    let rr = len % stride;
    assert(((e + 1) * stride <= len) == (e < qq)) by (nonlinear_arith)
        requires
            e >= 0,
            stride > 0,
            len == stride * qq + rr,
            0 <= rr < stride,
    ;
}

proof fn lemma_stride_too_large(e: int, stride: int, len: int)
    requires
        e >= 0,
        stride > len,
        len >= 0,
    ensures
        (e + 1) * stride > len,
{
    assert((e + 1) * stride >= stride) by (nonlinear_arith)
        requires
            e >= 0,
            stride > 0,
    ;
}

/// Whether block number `e` lies inside both caches (`stride` given when it
/// fits in `usize`).
fn entry_fits(e: i32, stride: Option<usize>, k_len: usize, v_len: usize, Ghost(s): Ghost<int>) -> (r: bool)
    requires
        s >= 0,
        match stride {
            Some(x) => x == s,
            None => s > usize::MAX,
        },
    ensures
        r == entry_in_cache(e, s, k_len as int, v_len as int),
{
    if e < 0 {
        return false;
    }
    match stride {
        None => {
            proof {
                lemma_stride_too_large(e as int, s, k_len as int);
            }
            false
        },
        Some(x) => {
            if x == 0 {
                assert((e + 1) * s == 0) by (nonlinear_arith)
                    requires
                        s == 0,
                ;
                true
            } else {
                proof {
                    lemma_fits_quotient(e as int, s, k_len as int);
                    lemma_fits_quotient(e as int, s, v_len as int);
                }
                (e as usize) < k_len / x && (e as usize) < v_len / x
            }
        },
    }
}

/// Checks the buffers of a paged-attention launch: the output and query
/// buffers hold `num_seqs * num_heads * head_dim` values, there is a length
/// for every sequence, the block table has a row of `max_blocks_per_seq`
/// entries for every sequence, and every sequence has a non-negative length
/// whose blocks fit its row and name blocks wholly inside the key and value
/// caches (each block taking `block_size * num_heads * head_dim` values).
#[verifier::loop_isolation(false)]
pub fn check_attention_buffers(
    out_len: usize,
    q_len: usize,
    k_cache_len: usize,
    v_cache_len: usize,
    block_tables: &[i32],
    seq_lens: &[i32],
    max_blocks_per_seq: usize,
    num_seqs: usize,
    num_heads: usize,
    head_dim: usize,
    block_size: usize,
) -> (r: Result<(), &'static str>)
    requires
        num_seqs * num_heads <= usize::MAX,
        num_seqs * num_heads * head_dim <= usize::MAX,
    ensures
        ({
            let e = num_seqs * num_heads * head_dim;
            let stride = block_size * num_heads * head_dim;
            if out_len < e || q_len < e {
                r == Err::<(), &'static str>("Buffer length mismatch for output or query vectors")
            } else if seq_lens@.len() < num_seqs {
                r == Err::<(), &'static str>("Sequence lengths slice size is smaller than num_seqs")
            } else if block_tables@.len() < num_seqs * max_blocks_per_seq {
                r == Err::<(), &'static str>("Block table slice size is smaller than num_seqs * max_blocks_per_seq")
            } else if !rows_fit(
                block_tables@,
                seq_lens@,
                num_seqs as int,
                max_blocks_per_seq as nat,
                block_size as nat,
                stride,
                k_cache_len as int,
                v_cache_len as int,
            ) {
                r == Err::<(), &'static str>("Sequence length or block table entry out of range of the key/value cache")
            } else {
                r == Ok::<(), &'static str>(())
            }
        }),
{
    let expected_out_len = num_seqs * num_heads * head_dim;
    if out_len < expected_out_len || q_len < expected_out_len {
        return Err("Buffer length mismatch for output or query vectors");
    }
    if seq_lens.len() < num_seqs {
        return Err("Sequence lengths slice size is smaller than num_seqs");
    }
    let bt_len = block_tables.len();
    let table_len = num_seqs.checked_mul(max_blocks_per_seq);
    let table_ok = match table_len {
        Some(t) => bt_len >= t,
        None => false,
    };
    if !table_ok {
        return Err("Block table slice size is smaller than num_seqs * max_blocks_per_seq");
    }
    let ghost s: int = block_size * num_heads * head_dim;
    let stride = if block_size == 0 || num_heads == 0 || head_dim == 0 {
        Some(0usize)
    } else {
        match block_size.checked_mul(num_heads) {
            Some(x) => x.checked_mul(head_dim),
            None => None,
        }
    };
    proof {
        assert(s >= 0) by (nonlinear_arith)
            requires
                s == block_size * num_heads * head_dim,
        ;
        if block_size == 0 || num_heads == 0 || head_dim == 0 {
            assert(s == 0) by (nonlinear_arith)
                requires
                    s == block_size * num_heads * head_dim,
                    block_size == 0 || num_heads == 0 || head_dim == 0,
            ;
        } else if block_size * num_heads > usize::MAX {
            assert(s >= block_size * num_heads) by (nonlinear_arith)
                requires
                    s == block_size * num_heads * head_dim,
                    head_dim >= 1,
                    block_size * num_heads >= 0,
            ;
        }
    }
    let ghost bt = block_tables@;
    let ghost sl = seq_lens@;
    let ghost w = max_blocks_per_seq as nat;
    let ghost bs = block_size as nat;
    let mut i: usize = 0;
    while i < num_seqs
        invariant
            0 <= i <= num_seqs,
            bt == block_tables@,
            bt.len() == bt_len,
            sl == seq_lens@,
            sl.len() >= num_seqs,
            bt.len() >= num_seqs * max_blocks_per_seq,
            s >= 0,
            match stride {
                Some(x) => x == s,
                None => s > usize::MAX,
            },
            rows_fit(bt, sl, i as int, w, bs, s, k_cache_len as int, v_cache_len as int),
        decreases num_seqs - i,
    {
        let len = seq_lens[i];
        assert(len == sl[i as int]);
        if len < 0 {
            assert(!row_fits(bt, sl, i as int, w, bs, s, k_cache_len as int, v_cache_len as int));
            return Err("Sequence length or block table entry out of range of the key/value cache");
        }
        if len > 0 {
            if block_size == 0 {
                assert(!row_fits(bt, sl, i as int, w, bs, s, k_cache_len as int, v_cache_len as int));
                return Err("Sequence length or block table entry out of range of the key/value cache");
            }
            let ulen = len as usize;
            let used = if ulen % block_size > 0 {
                ulen / block_size + 1
            } else {
                ulen / block_size
            };
            assert(ulen as int == len as int);
            assert(used == row_blocks(len as nat, bs));
            if used > max_blocks_per_seq {
                assert(!row_fits(bt, sl, i as int, w, bs, s, k_cache_len as int, v_cache_len as int));
                return Err("Sequence length or block table entry out of range of the key/value cache");
            }
            let mut j: usize = 0;
            while j < used
                invariant
                    0 <= i < num_seqs,
                    0 <= j <= used <= max_blocks_per_seq,
                    used == row_blocks(len as nat, bs),
                    bt == block_tables@,
                    bt.len() == bt_len,
                    bt.len() >= num_seqs * max_blocks_per_seq,
                    s >= 0,
                    match stride {
                        Some(x) => x == s,
                        None => s > usize::MAX,
                    },
                    forall|jj: int| 0 <= jj < j ==> #[trigger] entry_in_cache(
                        bt[i * w + jj],
                        s,
                        k_cache_len as int,
                        v_cache_len as int,
                    ),
                decreases used - j,
            {
                proof {
                    lemma_row_index(i as int, j as int, max_blocks_per_seq as int, num_seqs as int);
                }
                let e = block_tables[i * max_blocks_per_seq + j];
                assert(e == bt[i * w + j]);
                if !entry_fits(e, stride, k_cache_len, v_cache_len, Ghost(s)) {
                    proof {
                        assert(!row_fits(bt, sl, i as int, w, bs, s, k_cache_len as int, v_cache_len as int));
                    }
                    return Err("Sequence length or block table entry out of range of the key/value cache");
                }
                j = j + 1;
            }
        }
        proof {
            assert(row_fits(bt, sl, i as int, w, bs, s, k_cache_len as int, v_cache_len as int));
            assert forall|ii: int| 0 <= ii < i + 1 implies #[trigger] row_fits(
                bt,
                sl,
                ii,
                w,
                bs,
                s,
                k_cache_len as int,
                v_cache_len as int,
            ) by {}
        }
        i = i + 1;
    }
    Ok(())
}

} // verus!
