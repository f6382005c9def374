use littlefs_rust::allocator::lfs_alloc_drop;
use littlefs_rust::bd::{lfs_bd_prog, lfs_bd_sync, RamBlockDevice};
use littlefs_rust::ctz::{lfs_ctz_extend, lfs_ctz_find, lfs_ctz_index, lfs_index, lfs_index_traverse};
use littlefs_rust::defines::{LfsCache, LfsConfig, LFS_BLOCK_NULL};
use littlefs_rust::fs::{lfs_init, Lfs};

fn config() -> LfsConfig {
    LfsConfig {
        read_size: 16,
        prog_size: 16,
        block_size: 128,
        block_count: 64,
        block_cycles: 500,
        cache_size: 64,
        lookahead_size: 8,
        compact_thresh: 0,
        name_max: 0,
        file_max: 0,
        attr_max: 0,
        metadata_max: 0,
        inline_max: 0,
        disk_version: 0,
    }
}

#[test]
fn index_of_bytes_in_a_skip_list() {
    let cfg = config();
    // block 0 holds 128 bytes of data; block 1 one pointer and 124 bytes;
    // block 2 two pointers and 120 bytes
    let mut off = 0;
    assert_eq!(lfs_ctz_index(&cfg, &mut off), 0);
    assert_eq!(off, 0);
    let mut off = 127;
    assert_eq!(lfs_ctz_index(&cfg, &mut off), 0);
    assert_eq!(off, 127);
    let mut off = 128;
    assert_eq!(lfs_ctz_index(&cfg, &mut off), 1);
    assert_eq!(off, 4);
    let mut off = 252;
    assert_eq!(lfs_ctz_index(&cfg, &mut off), 2);
    assert_eq!(off, 8);
    let mut off = 371;
    assert_eq!(lfs_ctz_index(&cfg, &mut off), 2);
    assert_eq!(off, 127);
}

fn new_fs() -> Lfs<RamBlockDevice> {
    let cfg = config();
    let mut lfs = lfs_init(RamBlockDevice::new(cfg.block_size, cfg.block_count), &cfg);
    lfs_alloc_drop(&mut lfs);
    lfs
}

fn file_cache(lfs: &Lfs<RamBlockDevice>) -> LfsCache {
    LfsCache {
        block: LFS_BLOCK_NULL,
        off: 0,
        size: 0,
        buffer: vec![0xff; lfs.cfg.cache_size as usize],
    }
}

#[test]
fn extending_an_empty_file_starts_a_block() {
    let mut lfs = new_fs();
    let mut pcache = file_cache(&lfs);
    let (mut block, mut off) = (0, 7);
    lfs_ctz_extend(&mut lfs, &[], &mut pcache, LFS_BLOCK_NULL, 0, &mut block, &mut off).unwrap();
    assert_eq!(block, 0);
    assert_eq!(off, 0);
}

#[test]
fn a_grown_skip_list_is_found_again() {
    let mut lfs = new_fs();
    let bs = lfs.cfg.block_size;
    let mut in_use: Vec<u32> = Vec::new();
    let mut blocks: Vec<u32> = Vec::new();
    let mut head = LFS_BLOCK_NULL;
    let mut size: u32 = 0;
    for _ in 0..9 {
        let mut pcache = file_cache(&lfs);
        let (mut block, mut off) = (0, 0);
        lfs_ctz_extend(&mut lfs, &in_use, &mut pcache, head, size, &mut block, &mut off).unwrap();
        // fill the rest of the new block with data
        let fill = vec![0x5a; (bs - off) as usize];
        let cfg = lfs.cfg;
        let bc = lfs.block_count;
        lfs_bd_prog(&cfg, &mut lfs.bd, bc, &mut pcache, &mut lfs.rcache, false, block, off, &fill).unwrap();
        lfs_bd_sync(&cfg, &mut lfs.bd, bc, &mut pcache, &mut lfs.rcache, false).unwrap();
        assert!(!in_use.contains(&block));
        in_use.push(block);
        blocks.push(block);
        head = block;
        size += bs - off;
    }
    let cfg = lfs.cfg;
    let bc = lfs.block_count;
    for (index, &expect) in blocks.iter().enumerate() {
        // the first data byte of each block
        let mut first = 0u32;
        for i in 0..index as u32 {
            first += bs - if i == 0 { 0 } else { 4 * (i.trailing_zeros() + 1) };
        }
        let (mut block, mut off) = (0, 0);
        lfs_ctz_find(&cfg, &lfs.bd, bc, None, &mut lfs.rcache, head, size, first, &mut block, &mut off).unwrap();
        assert_eq!(block, expect);
        let ptrs = if index == 0 { 0 } else { 4 * ((index as u32).trailing_zeros() + 1) };
        assert_eq!(off, ptrs);
    }
    // following first pointers lists every block, the last one first
    let listed = lfs_index_traverse(&cfg, &lfs.bd, bc, None, &mut lfs.rcache, head, size).unwrap();
    let mut expect = blocks.clone();
    expect.reverse();
    assert_eq!(listed, expect);
    let none = lfs_index_traverse(&cfg, &lfs.bd, bc, None, &mut lfs.rcache, head, 0).unwrap();
    assert!(none.is_empty());
}

#[test]
fn extending_a_partial_block_copies_it() {
    let mut lfs = new_fs();
    let mut pcache = file_cache(&lfs);
    let (mut block, mut off) = (0, 0);
    lfs_ctz_extend(&mut lfs, &[], &mut pcache, LFS_BLOCK_NULL, 0, &mut block, &mut off).unwrap();
    let cfg = lfs.cfg;
    let bc = lfs.block_count;
    let data: Vec<u8> = (0..50u8).collect();
    lfs_bd_prog(&cfg, &mut lfs.bd, bc, &mut pcache, &mut lfs.rcache, false, block, 0, &data).unwrap();
    lfs_bd_sync(&cfg, &mut lfs.bd, bc, &mut pcache, &mut lfs.rcache, false).unwrap();
    let first = block;
    let mut pcache = file_cache(&lfs);
    let (mut nblock, mut noff) = (0, 0);
    lfs_ctz_extend(&mut lfs, &[first], &mut pcache, first, 50, &mut nblock, &mut noff).unwrap();
    lfs_bd_sync(&cfg, &mut lfs.bd, bc, &mut pcache, &mut lfs.rcache, false).unwrap();
    assert_ne!(nblock, first);
    assert_eq!(noff, 50);
    assert_eq!(&lfs.bd.data[nblock as usize][0..50], &data[..]);
}

#[test]
fn walking_the_blocks_finds_the_same_index() {
    let cfg = config();
    for pos in [0u32, 1, 127, 128, 131, 251, 252, 371, 372, 1000, 5000, 123_456, 4_000_000_000].iter() {
        let mut a = *pos;
        let mut b = *pos;
        let i = lfs_ctz_index(&cfg, &mut a);
        let j = lfs_index(&cfg, &mut b);
        assert_eq!((i, a), (j, b), "byte {}", pos);
    }
    let mut off = 252;
    assert_eq!(lfs_index(&cfg, &mut off), 2);
    assert_eq!(off, 8);
}

#[test]
fn consecutive_bytes_fill_each_block_in_order() {
    let cfg = config();
    let (mut pi, mut po) = (0u32, 0u32);
    for pos in 1u32..3000 {
        let mut o = pos;
        let i = lfs_ctz_index(&cfg, &mut o);
        if po + 1 < cfg.block_size {
            assert_eq!((i, o), (pi, po + 1));
        } else {
            assert_eq!(i, pi + 1);
            assert_eq!(o, 4 * (i.trailing_zeros() + 1));
        }
        pi = i;
        po = o;
    }
}
