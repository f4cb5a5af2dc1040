use nvpool::layout::{
    align_up, calculate_max_pools, calculate_max_pools_precise, heap_offset, object_table_offset,
};

#[test]
fn alignment_rounds_up() {
    assert_eq!(align_up(0, 8), 0);
    assert_eq!(align_up(1, 8), 8);
    assert_eq!(align_up(48, 64), 64);
    assert_eq!(align_up(4097, 4096), 8192);
}

#[test]
fn pool_offsets() {
    assert_eq!(object_table_offset(), 64);
    assert_eq!(heap_offset(), 16448);
}

#[test]
fn pools_of_an_nvdimm() {
    assert_eq!(calculate_max_pools(96), 0);
    assert_eq!(calculate_max_pools(64 * 1024 * 1024), 0);
    assert_eq!(calculate_max_pools(65 * 1024 * 1024), 64);
    assert_eq!(calculate_max_pools(1024 * 1024 * 1024), 960);
    // Data and directory records of 64 pools would fit, but not the bitmaps.
    assert_eq!(calculate_max_pools(96 + 64 * 1048736), 0);
    assert_eq!(calculate_max_pools(96 + 64 * 1048737 - 1), 0);
    for size in [96 + 64 * 1048737, 200_000_000, 5_000_000_000] {
        let pools = calculate_max_pools(size);
        assert!(96 + pools * 1048576 + pools / 64 * 16 + pools * 160 <= size);
    }
}

#[test]
fn pools_of_an_nvdimm_counted_precisely() {
    assert_eq!(calculate_max_pools_precise(1000), None);
    assert_eq!(calculate_max_pools_precise(2 * 1024 * 1024), None);
    assert_eq!(calculate_max_pools_precise(65 * 1024 * 1024), Some(64));
    // The estimate is 64 here, but bitmaps and padding do not fit.
    assert_eq!(calculate_max_pools_precise(96 + 64 * 1048737), None);
    assert_eq!(calculate_max_pools(96 + 64 * 1048737), 64);
}
