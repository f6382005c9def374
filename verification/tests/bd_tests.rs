use littlefs_rust::bd::{
    lfs_bd_cmp, lfs_bd_crc, lfs_bd_erase, lfs_bd_flush, lfs_bd_prog, lfs_bd_read, lfs_bd_sync,
    lfs_cache_drop, lfs_cache_zero, RamBlockDevice,
};
use littlefs_rust::defines::{LfsCache, LfsCmp, LfsConfig, LfsError, LFS_BLOCK_INLINE, LFS_BLOCK_NULL};
use littlefs_rust::util::lfs_crc;

fn config() -> LfsConfig {
    LfsConfig {
        read_size: 16,
        prog_size: 16,
        block_size: 512,
        block_count: 8,
        block_cycles: 500,
        cache_size: 64,
        lookahead_size: 16,
        compact_thresh: 0,
        name_max: 0,
        file_max: 0,
        attr_max: 0,
        metadata_max: 0,
        inline_max: 0,
        disk_version: 0,
    }
}

fn empty_cache(cfg: &LfsConfig) -> LfsCache {
    LfsCache { block: LFS_BLOCK_NULL, off: 0, size: 0, buffer: vec![0xff; cfg.cache_size as usize] }
}

#[test]
fn a_new_device_reads_erased() {
    let cfg = config();
    let bd = RamBlockDevice::new(cfg.block_size, cfg.block_count);
    let mut rcache = empty_cache(&cfg);
    let v = lfs_bd_read(&cfg, &bd, cfg.block_count, None, &mut rcache, 16, 3, 100, 10).unwrap();
    assert_eq!(v, vec![0xff; 10]);
}

#[test]
fn reads_out_of_range_are_corrupt() {
    let cfg = config();
    let bd = RamBlockDevice::new(cfg.block_size, cfg.block_count);
    let mut rcache = empty_cache(&cfg);
    assert_eq!(
        lfs_bd_read(&cfg, &bd, cfg.block_count, None, &mut rcache, 16, 8, 0, 4),
        Err(LfsError::Corrupt)
    );
    assert_eq!(
        lfs_bd_read(&cfg, &bd, cfg.block_count, None, &mut rcache, 16, 0, 510, 4),
        Err(LfsError::Corrupt)
    );
}

#[test]
fn a_read_sees_what_was_programmed_before_and_after_sync() {
    let cfg = config();
    let mut bd = RamBlockDevice::new(cfg.block_size, cfg.block_count);
    let mut rcache = empty_cache(&cfg);
    let mut pcache = empty_cache(&cfg);
    let data: Vec<u8> = (0u8..40).collect();
    lfs_bd_prog(&cfg, &mut bd, cfg.block_count, &mut pcache, &mut rcache, true, 2, 0, &data).unwrap();
    let through = lfs_bd_read(&cfg, &bd, cfg.block_count, Some(&pcache), &mut rcache, 40, 2, 0, 40).unwrap();
    assert_eq!(through, data);
    lfs_bd_sync(&cfg, &mut bd, cfg.block_count, &mut pcache, &mut rcache, false).unwrap();
    assert_eq!(pcache.block, LFS_BLOCK_NULL);
    let direct = lfs_bd_read(&cfg, &bd, cfg.block_count, None, &mut rcache, 40, 2, 0, 40).unwrap();
    assert_eq!(direct, data);
    // the rest of the prog unit was padded with erased bytes
    let pad = lfs_bd_read(&cfg, &bd, cfg.block_count, None, &mut rcache, 8, 2, 40, 8).unwrap();
    assert_eq!(pad, vec![0xff; 8]);
}

#[test]
fn programming_across_the_cache_writes_it_out() {
    let cfg = config();
    let mut bd = RamBlockDevice::new(cfg.block_size, cfg.block_count);
    let mut rcache = empty_cache(&cfg);
    let mut pcache = empty_cache(&cfg);
    let data: Vec<u8> = (0..100u32).map(|i| (i * 3) as u8).collect();
    lfs_bd_prog(&cfg, &mut bd, cfg.block_count, &mut pcache, &mut rcache, true, 1, 0, &data).unwrap();
    // the first cache-full went to the device
    assert_eq!(&bd.data[1][0..64], &data[0..64]);
    lfs_bd_flush(&cfg, &mut bd, cfg.block_count, &mut pcache, &mut rcache, true).unwrap();
    assert_eq!(&bd.data[1][0..100], &data[..]);
}

#[test]
fn compare_and_crc_look_through_the_caches() {
    let cfg = config();
    let mut bd = RamBlockDevice::new(cfg.block_size, cfg.block_count);
    let mut rcache = empty_cache(&cfg);
    let mut pcache = empty_cache(&cfg);
    lfs_bd_prog(&cfg, &mut bd, cfg.block_count, &mut pcache, &mut rcache, false, 4, 16, b"abcdef").unwrap();
    let eq = lfs_bd_cmp(&cfg, &bd, cfg.block_count, Some(&pcache), &mut rcache, 6, 4, 16, b"abcdef").unwrap();
    assert_eq!(eq, LfsCmp::Eq);
    let lt = lfs_bd_cmp(&cfg, &bd, cfg.block_count, Some(&pcache), &mut rcache, 6, 4, 16, b"abcdea").unwrap();
    assert_eq!(lt, LfsCmp::Lt);
    let gt = lfs_bd_cmp(&cfg, &bd, cfg.block_count, Some(&pcache), &mut rcache, 6, 4, 16, b"abcdez").unwrap();
    assert_eq!(gt, LfsCmp::Gt);
    let mut crc = 0xffff_ffffu32;
    lfs_bd_crc(&cfg, &bd, cfg.block_count, Some(&pcache), &mut rcache, 6, 4, 16, 6, &mut crc).unwrap();
    assert_eq!(crc, lfs_crc(0xffff_ffff, b"abcdef"));
}

#[test]
fn erase_and_cache_resets() {
    let cfg = config();
    let mut bd = RamBlockDevice::new(cfg.block_size, cfg.block_count);
    let mut rcache = empty_cache(&cfg);
    let mut pcache = empty_cache(&cfg);
    lfs_bd_prog(&cfg, &mut bd, cfg.block_count, &mut pcache, &mut rcache, false, 5, 0, &[1, 2, 3]).unwrap();
    lfs_bd_sync(&cfg, &mut bd, cfg.block_count, &mut pcache, &mut rcache, false).unwrap();
    assert_eq!(&bd.data[5][0..3], &[1, 2, 3]);
    lfs_bd_erase(&mut bd, 5).unwrap();
    assert_eq!(bd.data[5], vec![0xff; 512]);
    pcache.block = 5;
    pcache.buffer[0] = 9;
    lfs_cache_zero(&mut pcache);
    assert_eq!(pcache.block, LFS_BLOCK_NULL);
    assert!(pcache.buffer.iter().all(|&b| b == 0xff));
    rcache.block = 1;
    lfs_cache_drop(&mut rcache);
    assert_eq!(rcache.block, LFS_BLOCK_NULL);
}

#[test]
fn writes_to_an_inline_file_stay_in_its_cache() {
    let cfg = config();
    let mut bd = RamBlockDevice::new(cfg.block_size, cfg.block_count);
    let before = bd.data.clone();
    let mut pcache = empty_cache(&cfg);
    let mut rcache = empty_cache(&cfg);
    let bc = cfg.block_count;
    lfs_bd_prog(&cfg, &mut bd, bc, &mut pcache, &mut rcache, true, LFS_BLOCK_INLINE, 5, b"abc").unwrap();
    assert_eq!(pcache.block, LFS_BLOCK_INLINE);
    // the window starts prog-aligned below the first write
    assert_eq!(pcache.off, 0);
    assert_eq!(pcache.size, 8);
    assert_eq!(pcache.buffer[5..8].to_vec(), b"abc".to_vec());
    lfs_bd_prog(&cfg, &mut bd, bc, &mut pcache, &mut rcache, true, LFS_BLOCK_INLINE, 2, b"xy").unwrap();
    assert_eq!(pcache.size, 8);
    assert_eq!(pcache.buffer[2..8].to_vec(), b"xy\xffabc".to_vec());
    // flushing leaves an inline cache alone, and the device never sees it
    lfs_bd_flush(&cfg, &mut bd, bc, &mut pcache, &mut rcache, true).unwrap();
    assert_eq!(pcache.block, LFS_BLOCK_INLINE);
    assert_eq!(pcache.size, 8);
    assert_eq!(bd.data, before);
}
