use littlefs_rust::allocator::lfs_alloc_drop;
use littlefs_rust::bd::{lfs_bd_prog, lfs_bd_sync, RamBlockDevice};
use littlefs_rust::cache1::{
    lfs_cache_cmp, lfs_cache_crc, lfs_cache_flush, lfs_cache_prog, lfs_cache_read, lfs_index_find,
};
use littlefs_rust::ctz::{lfs_ctz_extend, lfs_ctz_find};
use littlefs_rust::defines::{LfsCache, LfsConfig, LFS_BLOCK_NULL};
use littlefs_rust::fs::lfs_init;
use littlefs_rust::util::lfs_crc;

fn config() -> LfsConfig {
    LfsConfig {
        read_size: 16,
        prog_size: 16,
        block_size: 128,
        block_count: 32,
        block_cycles: 500,
        cache_size: 64,
        lookahead_size: 8,
        compact_thresh: 0,
        name_max: 0,
        file_max: 0,
        attr_max: 0,
        metadata_max: 0,
        inline_max: 0,
        disk_version: 0,
    }
}

fn cache(cfg: &LfsConfig) -> LfsCache {
    LfsCache { block: LFS_BLOCK_NULL, off: 0, size: 0, buffer: vec![0xff; cfg.cache_size as usize] }
}

/// A device whose byte `k` of block `b` is `(b * 7 + k) % 256`.
fn patterned(cfg: &LfsConfig) -> RamBlockDevice {
    let mut bd = RamBlockDevice::new(cfg.block_size, cfg.block_count);
    for (b, block) in bd.data.iter_mut().enumerate() {
        for (k, byte) in block.iter_mut().enumerate() {
            *byte = ((b * 7 + k) % 256) as u8;
        }
    }
    bd
}

#[test]
fn first_version_reads_see_the_device() {
    let cfg = config();
    let bd = patterned(&cfg);
    let mut rcache = cache(&cfg);
    // unaligned, so through the read cache
    let v = lfs_cache_read(&cfg, &bd, &mut rcache, None, 3, 5, 20).unwrap();
    let expect: Vec<u8> = (5..25).map(|k| (3 * 7 + k) as u8).collect();
    assert_eq!(v, expect);
    assert_eq!(rcache.block, 3);
    // aligned and long, straight from the device
    let w = lfs_cache_read(&cfg, &bd, &mut rcache, None, 4, 32, 40).unwrap();
    let expect: Vec<u8> = (32..72).map(|k| (4 * 7 + k) as u8).collect();
    assert_eq!(w, expect);
}

#[test]
fn first_version_reads_prefer_the_program_cache() {
    let cfg = config();
    let bd = patterned(&cfg);
    let mut rcache = cache(&cfg);
    let mut pcache = cache(&cfg);
    pcache.block = 2;
    pcache.off = 16;
    for k in 0..16 {
        pcache.buffer[k] = 0xa0 + k as u8;
    }
    // starting in the program cache's unit, its bytes are read
    let v = lfs_cache_read(&cfg, &bd, &mut rcache, Some(&pcache), 2, 20, 4).unwrap();
    assert_eq!(v, vec![0xa4, 0xa5, 0xa6, 0xa7]);
    // a read that ends in it takes the device's bytes before it
    let w = lfs_cache_read(&cfg, &bd, &mut rcache, Some(&pcache), 2, 14, 4).unwrap();
    assert_eq!(w, vec![(14 + 14) as u8, (14 + 15) as u8, 0xa0, 0xa1]);
}

#[test]
fn first_version_compares_and_checksums() {
    let cfg = config();
    let bd = patterned(&cfg);
    let mut rcache = cache(&cfg);
    let same: Vec<u8> = (10..30).map(|k| (5 * 7 + k) as u8).collect();
    assert_eq!(lfs_cache_cmp(&cfg, &bd, &mut rcache, None, 5, 10, &same), Ok(true));
    let mut other = same.clone();
    other[7] ^= 1;
    assert_eq!(lfs_cache_cmp(&cfg, &bd, &mut rcache, None, 5, 10, &other), Ok(false));
    let mut crc = 0xffff_ffffu32;
    lfs_cache_crc(&cfg, &bd, &mut rcache, None, 5, 10, 20, &mut crc).unwrap();
    assert_eq!(crc, lfs_crc(0xffff_ffff, &same));
}

#[test]
fn first_version_finds_the_blocks_of_a_skip_list() {
    let cfg = config();
    let mut lfs = lfs_init(RamBlockDevice::new(cfg.block_size, cfg.block_count), &cfg);
    lfs_alloc_drop(&mut lfs);
    let bs = cfg.block_size;
    let mut in_use: Vec<u32> = Vec::new();
    let mut head = LFS_BLOCK_NULL;
    let mut size: u32 = 0;
    for _ in 0..8 {
        let mut pcache = cache(&cfg);
        let (mut block, mut off) = (0, 0);
        lfs_ctz_extend(&mut lfs, &in_use, &mut pcache, head, size, &mut block, &mut off).unwrap();
        let fill = vec![0x33; (bs - off) as usize];
        let bc = lfs.block_count;
        lfs_bd_prog(&cfg, &mut lfs.bd, bc, &mut pcache, &mut lfs.rcache, false, block, off, &fill).unwrap();
        lfs_bd_sync(&cfg, &mut lfs.bd, bc, &mut pcache, &mut lfs.rcache, false).unwrap();
        in_use.push(block);
        head = block;
        size += bs - off;
    }
    let bc = lfs.block_count;
    let mut rcache = cache(&cfg);
    for pos in [0u32, 1, 127, 128, 300, 500, 700, size - 1].iter() {
        let (mut b2, mut o2) = (0, 0);
        lfs_ctz_find(&cfg, &lfs.bd, bc, None, &mut lfs.rcache, head, size, *pos, &mut b2, &mut o2).unwrap();
        assert_eq!(lfs_index_find(&cfg, &lfs.bd, &mut rcache, None, head, size, *pos), Ok((b2, o2)));
    }
    assert_eq!(lfs_index_find(&cfg, &lfs.bd, &mut rcache, None, head, 0, 5), Ok((LFS_BLOCK_NULL, 0)));
}

#[test]
fn first_version_flush_writes_the_unit_and_empties_the_cache() {
    let cfg = config();
    let mut bd = patterned(&cfg);
    let mut rcache = cache(&cfg);
    let mut pcache = cache(&cfg);
    // an empty cache writes nothing
    assert!(lfs_cache_flush(&cfg, &mut bd, &mut pcache, &mut rcache, true).is_ok());
    assert_eq!(bd.data[5][0], 35);
    pcache.block = 5;
    pcache.off = 32;
    for k in 0..16 {
        pcache.buffer[k] = 0xc0 + k as u8;
    }
    // a read cache of the block is dropped, and the check reads the device back
    let _ = lfs_cache_read(&cfg, &bd, &mut rcache, None, 5, 33, 2).unwrap();
    assert_eq!(rcache.block, 5);
    assert!(lfs_cache_flush(&cfg, &mut bd, &mut pcache, &mut rcache, true).is_ok());
    assert_eq!(pcache.block, LFS_BLOCK_NULL);
    for k in 0..16 {
        assert_eq!(bd.data[5][32 + k], 0xc0 + k as u8);
    }
    assert_eq!(bd.data[5][31], (35 + 31) as u8);
    assert_eq!(bd.data[5][48], (35 + 48) as u8);
}

#[test]
fn first_version_prog_goes_through_the_cache() {
    let cfg = config();
    let mut bd = patterned(&cfg);
    let mut rcache = cache(&cfg);
    let mut pcache = cache(&cfg);
    // an unaligned start opens a unit in the cache; the device is untouched
    let data: Vec<u8> = (0..6).map(|k| 0x10 + k).collect();
    lfs_cache_prog(&cfg, &mut bd, &mut pcache, &mut rcache, false, 7, 4, &data).unwrap();
    assert_eq!(pcache.block, 7);
    assert_eq!(pcache.off, 0);
    assert_eq!(&pcache.buffer[4..10], &data[..]);
    assert_eq!(bd.data[7][4], (49 + 4) as u8);
    // filling the unit writes it out, and the rest stays in a new unit
    let more: Vec<u8> = (0..10).map(|k| 0x20 + k).collect();
    lfs_cache_prog(&cfg, &mut bd, &mut pcache, &mut rcache, true, 7, 10, &more).unwrap();
    for k in 0..6 {
        assert_eq!(bd.data[7][10 + k], 0x20 + k as u8);
    }
    assert_eq!(bd.data[7][4], 0x10);
    // the unit is written whole: before the data, what the cache held
    assert_eq!(bd.data[7][3], 0xff);
    assert_eq!(pcache.block, 7);
    assert_eq!(pcache.off, 16);
    assert_eq!(&pcache.buffer[0..4], &[0x26, 0x27, 0x28, 0x29]);
    assert_eq!(bd.data[7][16], (49 + 16) as u8);
    lfs_cache_flush(&cfg, &mut bd, &mut pcache, &mut rcache, true).unwrap();
    assert_eq!(bd.data[7][16], 0x26);
    assert_eq!(bd.data[7][19], 0x29);
}

#[test]
fn first_version_prog_writes_aligned_units_directly() {
    let cfg = config();
    let mut bd = patterned(&cfg);
    let mut rcache = cache(&cfg);
    let mut pcache = cache(&cfg);
    // two whole units and four bytes: the units go straight to the device
    let data: Vec<u8> = (0..36).map(|k| 0x40 + k).collect();
    lfs_cache_prog(&cfg, &mut bd, &mut pcache, &mut rcache, true, 9, 32, &data).unwrap();
    for k in 0..32 {
        assert_eq!(bd.data[9][32 + k], 0x40 + k as u8);
    }
    assert_eq!(pcache.block, 9);
    assert_eq!(pcache.off, 64);
    assert_eq!(&pcache.buffer[0..4], &data[32..36]);
    assert_eq!(bd.data[9][64], (63 + 64) as u8);
    // nothing to program leaves everything as it was
    lfs_cache_prog(&cfg, &mut bd, &mut pcache, &mut rcache, true, 9, 68, &[]).unwrap();
    assert_eq!(pcache.off, 64);
}
