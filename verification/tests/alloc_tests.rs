use littlefs_rust::allocator::{
    lfs_alloc, lfs_alloc_ckpoint, lfs_alloc_drop, lfs_alloc_lookahead, lfs_alloc_scan,
};
use littlefs_rust::bd::RamBlockDevice;
use littlefs_rust::defines::{LfsConfig, LfsError};
use littlefs_rust::fs::{lfs_init, Lfs};

fn config(block_count: u32) -> LfsConfig {
    LfsConfig {
        read_size: 16,
        prog_size: 16,
        block_size: 512,
        block_count,
        block_cycles: 500,
        cache_size: 64,
        lookahead_size: 2,
        compact_thresh: 0,
        name_max: 0,
        file_max: 0,
        attr_max: 0,
        metadata_max: 0,
        inline_max: 0,
        disk_version: 0,
    }
}

fn mounted(block_count: u32) -> Lfs<RamBlockDevice> {
    let cfg = config(block_count);
    let mut lfs = lfs_init(RamBlockDevice::new(cfg.block_size, cfg.block_count), &cfg);
    lfs_alloc_drop(&mut lfs);
    lfs
}

#[test]
fn allocation_skips_blocks_in_use() {
    let mut lfs = mounted(32);
    let in_use = [0u32, 1, 2, 4];
    assert_eq!(lfs_alloc(&mut lfs, &in_use), Ok(3));
    assert_eq!(lfs_alloc(&mut lfs, &in_use), Ok(5));
    assert_eq!(lfs_alloc(&mut lfs, &in_use), Ok(6));
}

#[test]
fn allocation_runs_out_of_space() {
    let mut lfs = mounted(4);
    let in_use = [0u32, 2];
    assert_eq!(lfs_alloc(&mut lfs, &in_use), Ok(1));
    assert_eq!(lfs_alloc(&mut lfs, &in_use), Ok(3));
    assert_eq!(lfs_alloc(&mut lfs, &in_use), Err(LfsError::NoSpc));
    assert_eq!(lfs.lookahead.ckpoint, 0);
    // a checkpoint lets the allocator look at every block again
    lfs_alloc_ckpoint(&mut lfs);
    assert_eq!(lfs.lookahead.ckpoint, 4);
    assert_eq!(lfs_alloc(&mut lfs, &in_use), Ok(1));
}

#[test]
fn allocation_wraps_around_the_device() {
    let mut lfs = mounted(40);
    let none: [u32; 0] = [];
    for expect in 0..16u32 {
        assert_eq!(lfs_alloc(&mut lfs, &none), Ok(expect));
    }
    // the window of 16 blocks is used up; the next scan starts after it
    assert_eq!(lfs_alloc(&mut lfs, &none), Ok(16));
    assert_eq!(lfs.lookahead.start, 16);
}

#[test]
fn scan_marks_exactly_the_blocks_in_use() {
    let mut lfs = mounted(32);
    lfs.lookahead.start = 30;
    lfs.lookahead.next = 0;
    assert_eq!(lfs_alloc_scan(&mut lfs, &[30, 1, 20]), 0);
    assert_eq!(lfs.lookahead.start, 30);
    assert_eq!(lfs.lookahead.size, 16);
    // block 30 is offset 0, block 1 is offset 3; block 20 is outside the window
    assert_eq!(lfs.lookahead.buffer, vec![0b0000_1001, 0]);
    assert_eq!(lfs_alloc_lookahead(&mut lfs, 31), 0);
    assert_eq!(lfs.lookahead.buffer, vec![0b0000_1011, 0]);
}
