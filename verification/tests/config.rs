use nexuskv::config::EngineConfig;

#[test]
fn default_config_capacities() {
    let cfg = EngineConfig::default();
    assert_eq!(cfg.total_physical_blocks, 512);
    assert_eq!(cfg.block_size, 16);
    assert_eq!(cfg.max_token_capacity(), 8192);
    assert_eq!(cfg.max_seq_token_length(), 512);
}
