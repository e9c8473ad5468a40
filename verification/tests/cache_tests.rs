use wall_e1::cache::{cache_size_in_range, optimal_batch_size, parse_cache_size, CacheParameters};

#[test]
fn cache_default_parameters() {
    let c = CacheParameters::default();
    assert_eq!(c.l1_size, 32768);
    assert_eq!(c.l2_size, 262144);
    assert_eq!(c.l3_size, 8388608);
    assert_eq!(c.line_size, 64);
}

#[test]
fn cache_size_suffixes() {
    assert_eq!(parse_cache_size("32K\n"), Some(32768));
    assert_eq!(parse_cache_size(" 8M "), Some(8388608));
    assert_eq!(parse_cache_size("64"), Some(64));
    assert_eq!(parse_cache_size("K"), None);
    assert_eq!(parse_cache_size("12KB"), None);
    assert_eq!(parse_cache_size(""), None);
    assert_eq!(parse_cache_size("-4K"), None);
    assert!(cache_size_in_range("32K"));
    assert!(!cache_size_in_range("18446744073709551615K"));
    assert!(cache_size_in_range("junk"));
}

#[test]
fn cache_optimal_batch_size_is_clamped() {
    // 64 * 128 * 4 bytes per sequence; 80% of 8 MB available
    let available = 6710886;
    assert_eq!(optimal_batch_size(available, 64, 128, 4), 204);
    assert_eq!(optimal_batch_size(1000, 64, 128, 4), 16);
    assert_eq!(optimal_batch_size(usize::MAX / 2, 1, 1, 1), 1024);
}
