use nexuskv::kernels::check_attention_buffers;

const RANGE: &str = "Sequence length or block table entry out of range of the key/value cache";

#[test]
fn attention_buffer_checks() {
    // One sequence, 2 heads of dimension 8, blocks of 4 tokens: a cache block
    // takes 4 * 2 * 8 = 64 values; caches of 128 values hold blocks 0 and 1.
    let tables = [1, 0];
    assert_eq!(check_attention_buffers(16, 16, 128, 128, &tables, &[5], 2, 1, 2, 8, 4), Ok(()));
    assert_eq!(
        check_attention_buffers(15, 16, 128, 128, &tables, &[5], 2, 1, 2, 8, 4),
        Err("Buffer length mismatch for output or query vectors")
    );
    assert_eq!(
        check_attention_buffers(16, 15, 128, 128, &tables, &[5], 2, 1, 2, 8, 4),
        Err("Buffer length mismatch for output or query vectors")
    );
    assert_eq!(
        check_attention_buffers(32, 32, 128, 128, &[1, 0, 0, 0], &[5], 2, 2, 2, 8, 4),
        Err("Sequence lengths slice size is smaller than num_seqs")
    );
    assert_eq!(
        check_attention_buffers(16, 16, 128, 128, &[1], &[5], 2, 1, 2, 8, 4),
        Err("Block table slice size is smaller than num_seqs * max_blocks_per_seq")
    );
}

#[test]
fn attention_table_entries_must_name_cache_blocks() {
    // Block 2 would need 192 values of cache.
    assert_eq!(check_attention_buffers(16, 16, 128, 128, &[2, 0], &[3], 2, 1, 2, 8, 4), Err(RANGE));
    // The value cache is one block short.
    assert_eq!(check_attention_buffers(16, 16, 128, 64, &[1, 0], &[3], 2, 1, 2, 8, 4), Err(RANGE));
    // Negative block number.
    assert_eq!(check_attention_buffers(16, 16, 128, 128, &[-1, 0], &[3], 2, 1, 2, 8, 4), Err(RANGE));
    // Only the entries the sequence reads are checked: 4 tokens read one block.
    assert_eq!(check_attention_buffers(16, 16, 128, 128, &[0, 7], &[4], 2, 1, 2, 8, 4), Ok(()));
    // Nine tokens need three blocks, more than the row holds.
    assert_eq!(check_attention_buffers(16, 16, 128, 128, &[0, 1], &[9], 2, 1, 2, 8, 4), Err(RANGE));
    // Negative sequence length.
    assert_eq!(check_attention_buffers(16, 16, 128, 128, &[0, 1], &[-1], 2, 1, 2, 8, 4), Err(RANGE));
    // An empty sequence reads nothing.
    assert_eq!(check_attention_buffers(16, 16, 0, 0, &[9, 9], &[0], 2, 1, 2, 8, 4), Ok(()));
}
