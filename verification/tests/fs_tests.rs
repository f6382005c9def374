use littlefs_rust::bd::RamBlockDevice;
use littlefs_rust::defines::{
    LfsConfig, LfsError, LfsMdir, LfsSuperblock, LfsTortoise, LFS_BLOCK_NULL,
};
use littlefs_rust::fs::{
    lfs_deinit, lfs_fs_disk_version, lfs_fs_disk_version_major, lfs_fs_disk_version_minor,
    lfs_fs_prepmove, lfs_fs_preporphans, lfs_fs_size_count, lfs_fs_prepsuperblock, lfs_init, lfs_mount_finish,
    lfs_mount_superblock, lfs_tortoise_detectcycles, lfs_unmount_, Lfs,
};
use littlefs_rust::pair::{
    lfs_gstate_getorphans, lfs_gstate_hasmove, lfs_gstate_hasmovehere, lfs_gstate_hasorphans,
    lfs_gstate_needssuperblock,
};
use littlefs_rust::tag::lfs_tag_id;

fn config() -> LfsConfig {
    LfsConfig {
        read_size: 16,
        prog_size: 16,
        block_size: 512,
        block_count: 32,
        block_cycles: 500,
        cache_size: 64,
        lookahead_size: 16,
        compact_thresh: 0,
        name_max: 0,
        file_max: 0,
        attr_max: 0,
        metadata_max: 0,
        inline_max: 0,
        disk_version: 0,
    }
}

fn new_fs(cfg: &LfsConfig) -> Lfs<RamBlockDevice> {
    lfs_init(RamBlockDevice::new(cfg.block_size, cfg.block_count), cfg)
}

#[test]
fn init_takes_the_defaults() {
    let cfg = config();
    let lfs = new_fs(&cfg);
    assert_eq!(lfs.name_max, 255);
    assert_eq!(lfs.file_max, 2147483647);
    assert_eq!(lfs.attr_max, 1022);
    // the smaller of the cache, an attribute and an eighth of a block
    assert_eq!(lfs.inline_max, 64);
    assert_eq!(lfs.root, [LFS_BLOCK_NULL, LFS_BLOCK_NULL]);
    assert_eq!(lfs.rcache.block, LFS_BLOCK_NULL);
    assert_eq!(lfs.rcache.buffer.len(), 64);
    assert_eq!(lfs.lookahead.buffer.len(), 16);
    assert_eq!(lfs.gstate.tag, 0);
    let bd = lfs_deinit(lfs);
    assert_eq!(bd.data.len(), 32);
}

#[test]
fn init_takes_configured_limits() {
    let mut cfg = config();
    cfg.name_max = 32;
    cfg.attr_max = 8;
    cfg.cache_size = 512;
    cfg.inline_max = u32::MAX;
    let lfs = new_fs(&cfg);
    assert_eq!(lfs.name_max, 32);
    assert_eq!(lfs.attr_max, 8);
    assert_eq!(lfs.inline_max, 0);
    cfg.inline_max = 0;
    let lfs = new_fs(&cfg);
    assert_eq!(lfs.inline_max, 8);
}

#[test]
fn preporphans_counts_up_and_down() {
    let cfg = config();
    let mut lfs = new_fs(&cfg);
    assert_eq!(lfs_fs_preporphans(&mut lfs, 2), 0);
    assert!(lfs_gstate_hasorphans(&lfs.gstate));
    assert_eq!(lfs_gstate_getorphans(&lfs.gstate), 2);
    assert_eq!(lfs.gstate.tag, 0x8000_0002);
    assert_eq!(lfs_fs_preporphans(&mut lfs, -1), 0);
    assert_eq!(lfs.gstate.tag, 0x8000_0001);
    assert_eq!(lfs_fs_preporphans(&mut lfs, -1), 0);
    assert!(!lfs_gstate_hasorphans(&lfs.gstate));
    assert_eq!(lfs.gstate.tag, 0);
}

#[test]
fn prepsuperblock_sets_and_clears_its_bit() {
    let cfg = config();
    let mut lfs = new_fs(&cfg);
    lfs_fs_preporphans(&mut lfs, 3);
    lfs_fs_prepsuperblock(&mut lfs, true);
    assert!(lfs_gstate_needssuperblock(&lfs.gstate));
    assert_eq!(lfs.gstate.tag & 0x1ff, 3);
    lfs_fs_prepsuperblock(&mut lfs, false);
    assert!(!lfs_gstate_needssuperblock(&lfs.gstate));
    assert_eq!(lfs.gstate.tag, 0x8000_0003);
}

#[test]
fn prepmove_records_and_clears_a_move() {
    let cfg = config();
    let mut lfs = new_fs(&cfg);
    lfs_fs_prepmove(&mut lfs, 7, [10, 11]);
    assert!(lfs_gstate_hasmove(&lfs.gstate));
    assert!(lfs_gstate_hasmovehere(&lfs.gstate, &[11, 10]));
    assert_eq!(lfs_tag_id(lfs.gstate.tag), 7);
    assert_eq!(lfs.gstate.tag, 0x4ff0_1c00);
    lfs_fs_prepmove(&mut lfs, 0x3ff, [10, 11]);
    assert!(!lfs_gstate_hasmove(&lfs.gstate));
    assert_eq!(lfs.gstate.pair, [0, 0]);
}

#[test]
fn disk_version_defaults_to_the_newest() {
    let mut cfg = config();
    let lfs = new_fs(&cfg);
    assert_eq!(lfs_fs_disk_version(&lfs), 0x0002_0001);
    assert_eq!(lfs_fs_disk_version_major(&lfs), 2);
    assert_eq!(lfs_fs_disk_version_minor(&lfs), 1);
    cfg.disk_version = 0x0002_0000;
    let lfs = new_fs(&cfg);
    assert_eq!(lfs_fs_disk_version(&lfs), 0x0002_0000);
    assert_eq!(lfs_fs_disk_version_minor(&lfs), 0);
}

#[test]
fn tortoise_finds_a_cycle() {
    let mut t = LfsTortoise { pair: [LFS_BLOCK_NULL, LFS_BLOCK_NULL], i: 1, period: 1 };
    let mut dir = LfsMdir {
        pair: [0, 1],
        rev: 0,
        off: 0,
        etag: 0,
        count: 0,
        erased: false,
        split: false,
        tail: [2, 3],
    };
    // a list 2-3 -> 4-5 -> 6-7 -> 4-5 -> ...
    let tails = [[2u32, 3u32], [4, 5], [6, 7], [4, 5], [6, 7], [4, 5], [6, 7], [4, 5]];
    let mut found = false;
    for tail in tails.iter() {
        dir.tail = *tail;
        match lfs_tortoise_detectcycles(&dir, &mut t) {
            Ok(()) => {},
            Err(e) => {
                assert_eq!(e, LfsError::Corrupt);
                found = true;
                break;
            },
        }
    }
    assert!(found);
}

#[test]
fn tortoise_doubles_its_period() {
    let mut t = LfsTortoise { pair: [LFS_BLOCK_NULL, LFS_BLOCK_NULL], i: 1, period: 1 };
    let mut dir = LfsMdir {
        pair: [0, 1],
        rev: 0,
        off: 0,
        etag: 0,
        count: 0,
        erased: false,
        split: false,
        tail: [2, 3],
    };
    assert_eq!(lfs_tortoise_detectcycles(&dir, &mut t), Ok(()));
    assert_eq!((t.i, t.period, t.pair), (1, 2, [2, 3]));
    dir.tail = [4, 5];
    assert_eq!(lfs_tortoise_detectcycles(&dir, &mut t), Ok(()));
    assert_eq!((t.i, t.period, t.pair), (2, 2, [2, 3]));
}

fn superblock() -> LfsSuperblock {
    LfsSuperblock {
        version: 0x0002_0001,
        block_size: 512,
        block_count: 32,
        name_max: 64,
        file_max: 0,
        attr_max: 16,
    }
}

#[test]
fn mount_takes_a_fitting_superblock() {
    let cfg = config();
    let mut lfs = new_fs(&cfg);
    assert_eq!(lfs_mount_superblock(&mut lfs, &superblock()), Ok(()));
    assert_eq!(lfs.name_max, 64);
    assert_eq!(lfs.file_max, 2147483647);
    assert_eq!(lfs.attr_max, 16);
    assert_eq!(lfs.inline_max, 16);
    assert_eq!(lfs.block_count, 32);
    assert!(!lfs_gstate_needssuperblock(&lfs.gstate));
}

#[test]
fn mount_marks_an_older_minor_version_for_rewrite() {
    let cfg = config();
    let mut lfs = new_fs(&cfg);
    let mut sb = superblock();
    sb.version = 0x0002_0000;
    assert_eq!(lfs_mount_superblock(&mut lfs, &sb), Ok(()));
    assert!(lfs_gstate_needssuperblock(&lfs.gstate));
}

#[test]
fn mount_refuses_superblocks_that_do_not_fit() {
    let cfg = config();
    let cases: [fn(&mut LfsSuperblock); 6] = [
        |s| s.version = 0x0001_0001,
        |s| s.version = 0x0002_0002,
        |s| s.name_max = 256,
        |s| s.attr_max = 2000,
        |s| s.block_count = 16,
        |s| s.block_size = 1024,
    ];
    for change in cases.iter() {
        let mut lfs = new_fs(&cfg);
        let mut sb = superblock();
        change(&mut sb);
        assert_eq!(lfs_mount_superblock(&mut lfs, &sb), Err(LfsError::Inval));
    }
}

#[test]
fn mount_finish_sets_up_the_allocator() {
    let cfg = config();
    let mut lfs = new_fs(&cfg);
    lfs.seed = 77;
    lfs.gstate.tag = 0x8000_0000 | 0x4ff0_0000;
    lfs_mount_finish(&mut lfs);
    assert_eq!(lfs.gstate.tag, 0xcff0_0001);
    assert_eq!(lfs.gdisk.tag, lfs.gstate.tag);
    assert_eq!(lfs.lookahead.start, 77 % 32);
    assert_eq!(lfs.lookahead.size, 0);
    assert_eq!(lfs.lookahead.ckpoint, 32);
}

#[test]
fn counting_blocks_adds_one_each() {
    let mut size = 0u32;
    lfs_fs_size_count(&mut size);
    lfs_fs_size_count(&mut size);
    assert_eq!(size, 2);
    let mut full = u32::MAX;
    lfs_fs_size_count(&mut full);
    assert_eq!(full, 0);
}

#[test]
fn unmounting_hands_the_device_back() {
    let cfg = config();
    let mut bd = RamBlockDevice::new(cfg.block_size, cfg.block_count);
    bd.data[1][3] = 7;
    let lfs = lfs_init(bd, &cfg);
    let bd = lfs_unmount_(lfs);
    assert_eq!(bd.data[1][3], 7);
    assert_eq!(bd.data.len(), cfg.block_count as usize);
}
