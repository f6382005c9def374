use littlefs_rust::allocator::lfs_alloc_drop;
use littlefs_rust::bd::{lfs_bd_erase, RamBlockDevice};
use littlefs_rust::commit::{
    lfs_dir_commit_size, lfs_dir_needsrelocation, lfs_dir_traverse_filter, lfs_dir_alloc, lfs_dir_commitattr, lfs_dir_commitcrc, lfs_dir_commitprog, LfsAttrData,
};
use littlefs_rust::defines::{
    LfsCommit, LfsConfig, LfsDir, LfsDiskoff, LfsError, LfsGstate, LfsInfo, LfsMdir, LFS_BLOCK_NULL,
};
use littlefs_rust::fs::{lfs_init, Lfs};
use littlefs_rust::mdir::{lfs_dir_tell_, lfs_dir_get, lfs_dir_getgstate, lfs_dir_getinfo, lfs_dir_getslice};
use littlefs_rust::tag::LFS_MKTAG;
use littlefs_rust::util::lfs_crc;

fn config() -> LfsConfig {
    LfsConfig {
        read_size: 16,
        prog_size: 16,
        block_size: 512,
        block_count: 16,
        block_cycles: 500,
        cache_size: 64,
        lookahead_size: 16,
        compact_thresh: 0,
        name_max: 0,
        file_max: 0,
        attr_max: 0,
        metadata_max: 0,
        inline_max: 0,
        disk_version: 0,
    }
}

fn new_fs() -> Lfs<RamBlockDevice> {
    let cfg = config();
    let mut lfs = lfs_init(RamBlockDevice::new(cfg.block_size, cfg.block_count), &cfg);
    lfs_alloc_drop(&mut lfs);
    lfs
}

fn empty_dir() -> LfsMdir {
    LfsMdir { pair: [0, 0], rev: 0, off: 0, etag: 0, count: 0, erased: false, split: false, tail: [0, 0] }
}

fn start(lfs: &mut Lfs<RamBlockDevice>, block: u32) -> LfsCommit {
    lfs_bd_erase(&mut lfs.bd, block).unwrap();
    LfsCommit { block, off: 0, ptag: 0xffff_ffff, crc: 0xffff_ffff, begin: 0, end: 512 - 8 }
}

/// Commits a file entry "hello" holding "world!" inline into a new pair.
fn committed() -> (Lfs<RamBlockDevice>, LfsMdir) {
    let mut lfs = new_fs();
    let mut dir = empty_dir();
    lfs_dir_alloc(&mut lfs, &[], &mut dir).unwrap();
    let mut commit = start(&mut lfs, dir.pair[0]);
    lfs_dir_commitprog(&mut lfs, &mut commit, &(dir.rev + 1).to_le_bytes()).unwrap();
    lfs_dir_commitattr(&mut lfs, &mut commit, LFS_MKTAG(0x401, 0, 0), &LfsAttrData::Mem(vec![])).unwrap();
    lfs_dir_commitattr(&mut lfs, &mut commit, LFS_MKTAG(0x001, 0, 5), &LfsAttrData::Mem(b"hello".to_vec()))
        .unwrap();
    lfs_dir_commitattr(&mut lfs, &mut commit, LFS_MKTAG(0x201, 0, 6), &LfsAttrData::Mem(b"world!".to_vec()))
        .unwrap();
    lfs_dir_commitcrc(&mut lfs, &mut commit).unwrap();
    dir.off = commit.off;
    dir.etag = commit.ptag;
    (lfs, dir)
}

#[test]
fn a_new_pair_starts_empty() {
    let mut lfs = new_fs();
    let mut dir = empty_dir();
    assert_eq!(lfs_dir_alloc(&mut lfs, &[0, 1], &mut dir), Ok(()));
    assert_eq!(dir.pair, [3, 2]);
    // an erased block reads as revision 0xffffffff, which wraps to 0 when
    // rounded up to the wear-leveling period
    assert_eq!(dir.rev, 0);
    assert_eq!(dir.off, 4);
    assert_eq!(dir.etag, 0xffff_ffff);
    assert_eq!(dir.tail, [LFS_BLOCK_NULL, LFS_BLOCK_NULL]);
}

#[test]
fn a_commit_lays_out_xored_big_endian_tags() {
    let (lfs, dir) = committed();
    let b = &lfs.bd.data[dir.pair[0] as usize];
    assert_eq!(&b[0..4], &1u32.to_le_bytes());
    let create = LFS_MKTAG(0x401, 0, 0);
    assert_eq!(&b[4..8], &(create ^ 0xffff_ffff).to_be_bytes());
    let name = LFS_MKTAG(0x001, 0, 5);
    assert_eq!(&b[8..12], &(name ^ create).to_be_bytes());
    assert_eq!(&b[12..17], b"hello");
    let st = LFS_MKTAG(0x201, 0, 6);
    assert_eq!(&b[17..21], &(st ^ name).to_be_bytes());
    assert_eq!(&b[21..27], b"world!");
    // the commit ends on a prog boundary
    assert_eq!(dir.off % 16, 0);
}

#[test]
fn a_committed_log_checks_out() {
    let (lfs, dir) = committed();
    let b = &lfs.bd.data[dir.pair[0] as usize];
    // the checksum of the next prog unit comes first: its size and crc
    let st = LFS_MKTAG(0x201, 0, 6);
    let fcrc = LFS_MKTAG(0x5ff, 0x3ff, 8);
    assert_eq!(&b[27..31], &(fcrc ^ st).to_be_bytes());
    assert_eq!(&b[31..35], &16u32.to_le_bytes());
    assert_eq!(&b[35..39], &lfs_crc(0xffff_ffff, &b[48..64]).to_le_bytes());
    // then the checksum tag, covering everything before it
    let tag_end = 39 + 4;
    let c = lfs_crc(0xffff_ffff, &b[0..tag_end]);
    assert_eq!(&b[tag_end..tag_end + 4], &c.to_le_bytes());
    assert_eq!(lfs_crc(0xffff_ffff, &b[0..tag_end + 4]), 0);
    assert_eq!(dir.off, 48);
}

#[test]
fn committed_attributes_read_back() {
    let (mut lfs, dir) = committed();
    let (tag, data) = lfs_dir_get(&mut lfs, &dir, 0x700f_fc00, LFS_MKTAG(0x200, 0, 6)).unwrap();
    assert_eq!(tag, LFS_MKTAG(0x201, 0, 6));
    assert_eq!(data, b"world!".to_vec());
    let (tag, data) = lfs_dir_get(&mut lfs, &dir, 0x780f_fc00, LFS_MKTAG(0, 0, 8)).unwrap();
    assert_eq!(tag, LFS_MKTAG(0x001, 0, 5));
    assert_eq!(data, b"hello\0\0\0".to_vec());
    let (_, part) = lfs_dir_getslice(&mut lfs, &dir, 0x700f_fc00, LFS_MKTAG(0x200, 0, 6), 1, 4).unwrap();
    assert_eq!(part, b"orld".to_vec());
}

#[test]
fn a_missing_entry_is_noent() {
    let (mut lfs, dir) = committed();
    assert_eq!(
        lfs_dir_get(&mut lfs, &dir, 0x700f_fc00, LFS_MKTAG(0x200, 1, 6)),
        Err(LfsError::NoEnt)
    );
}

#[test]
fn a_pending_move_hides_its_entry() {
    let (mut lfs, dir) = committed();
    lfs.gdisk = LfsGstate { tag: 0x4ff0_0000, pair: dir.pair };
    assert_eq!(
        lfs_dir_get(&mut lfs, &dir, 0x700f_fc00, LFS_MKTAG(0x200, 0, 6)),
        Err(LfsError::NoEnt)
    );
}

#[test]
fn info_reports_name_type_and_size() {
    let (mut lfs, dir) = committed();
    let mut info = LfsInfo { type_: 0, size: 0, name: vec![] };
    assert_eq!(lfs_dir_getinfo(&mut lfs, &dir, 0, &mut info), Ok(()));
    assert_eq!(info.type_, 0x01);
    assert_eq!(info.name, b"hello".to_vec());
    assert_eq!(info.size, 6);
    assert_eq!(lfs_dir_getinfo(&mut lfs, &dir, 0x3ff, &mut info), Ok(()));
    assert_eq!(info.name, b"/".to_vec());
    assert_eq!(info.type_, 0x02);
}

#[test]
fn a_block_without_gstate_leaves_it() {
    let (mut lfs, dir) = committed();
    let mut g = LfsGstate { tag: 5, pair: [6, 7] };
    assert_eq!(lfs_dir_getgstate(&mut lfs, &dir, &mut g), Ok(()));
    assert_eq!((g.tag, g.pair), (5, [6, 7]));
}

#[test]
fn gstate_in_a_block_is_xored_in() {
    let mut lfs = new_fs();
    let mut dir = empty_dir();
    lfs_dir_alloc(&mut lfs, &[], &mut dir).unwrap();
    let mut commit = start(&mut lfs, dir.pair[0]);
    lfs_dir_commitprog(&mut lfs, &mut commit, &1u32.to_le_bytes()).unwrap();
    let mut g = Vec::new();
    g.extend_from_slice(&0x8000_0001u32.to_le_bytes());
    g.extend_from_slice(&9u32.to_le_bytes());
    g.extend_from_slice(&10u32.to_le_bytes());
    lfs_dir_commitattr(&mut lfs, &mut commit, LFS_MKTAG(0x7ff, 0x3ff, 12), &LfsAttrData::Mem(g)).unwrap();
    lfs_dir_commitcrc(&mut lfs, &mut commit).unwrap();
    dir.off = commit.off;
    dir.etag = commit.ptag;
    let mut gs = LfsGstate { tag: 1, pair: [1, 2] };
    assert_eq!(lfs_dir_getgstate(&mut lfs, &dir, &mut gs), Ok(()));
    assert_eq!((gs.tag, gs.pair), (0x8000_0000, [8, 8]));
}

#[test]
fn attributes_can_be_copied_from_disk() {
    let (mut lfs, dir) = committed();
    let mut commit = start(&mut lfs, dir.pair[1]);
    lfs_dir_commitprog(&mut lfs, &mut commit, &2u32.to_le_bytes()).unwrap();
    let tag = LFS_MKTAG(0x201, 0, 6) | 0x8000_0000;
    let src = LfsAttrData::Disk(LfsDiskoff { block: dir.pair[0], off: 21 });
    lfs_dir_commitattr(&mut lfs, &mut commit, tag, &src).unwrap();
    assert_eq!(commit.ptag, LFS_MKTAG(0x201, 0, 6));
    lfs_dir_commitcrc(&mut lfs, &mut commit).unwrap();
    assert_eq!(&lfs.bd.data[dir.pair[1] as usize][8..14], b"world!");
}

#[test]
fn an_attribute_past_the_end_is_nospc() {
    let mut lfs = new_fs();
    let mut commit = start(&mut lfs, 3);
    commit.end = 10;
    let r = lfs_dir_commitattr(&mut lfs, &mut commit, LFS_MKTAG(0x001, 0, 8), &LfsAttrData::Mem(vec![0; 8]));
    assert_eq!(r, Err(LfsError::NoSpc));
    assert_eq!(commit.off, 0);
}

#[test]
fn commit_sizes_add_up_tags_and_data() {
    let mut size = 0u32;
    lfs_dir_commit_size(&mut size, LFS_MKTAG(0x001, 0, 5));
    assert_eq!(size, 9);
    // a delete takes only its tag
    lfs_dir_commit_size(&mut size, LFS_MKTAG(0x4ff, 0, 0x3ff));
    assert_eq!(size, 13);
}

#[test]
fn pairs_move_every_odd_period_of_revisions() {
    let mut lfs = new_fs();
    let mut dir = empty_dir();
    // block_cycles 500: the period is 501
    dir.rev = 500;
    assert!(lfs_dir_needsrelocation(&lfs, &dir));
    dir.rev = 501;
    assert!(!lfs_dir_needsrelocation(&lfs, &dir));
    dir.rev = 1001;
    assert!(lfs_dir_needsrelocation(&lfs, &dir));
    // an even period is made odd: block_cycles 100 gives 101
    lfs.cfg.block_cycles = 100;
    dir.rev = 100;
    assert!(lfs_dir_needsrelocation(&lfs, &dir));
    dir.rev = 101;
    assert!(!lfs_dir_needsrelocation(&lfs, &dir));
    lfs.cfg.block_cycles = -1;
    dir.rev = 100;
    assert!(!lfs_dir_needsrelocation(&lfs, &dir));
}

#[test]
fn later_attributes_make_earlier_ones_redundant() {
    // the same name of the same entry
    let mut f = LFS_MKTAG(0x001, 3, 5);
    assert!(lfs_dir_traverse_filter(&mut f, LFS_MKTAG(0x001, 3, 7)));
    assert_eq!(f, 0);
    // a different entry is kept
    let mut f = LFS_MKTAG(0x001, 3, 5);
    assert!(!lfs_dir_traverse_filter(&mut f, LFS_MKTAG(0x001, 4, 7)));
    assert_eq!(f, LFS_MKTAG(0x001, 3, 5));
    // a delete of its entry drops it
    let mut f = LFS_MKTAG(0x201, 3, 6);
    assert!(lfs_dir_traverse_filter(&mut f, LFS_MKTAG(0x4ff, 3, 0)));
    // a create below its id moves it up one
    let mut f = LFS_MKTAG(0x201, 3, 6);
    assert!(!lfs_dir_traverse_filter(&mut f, LFS_MKTAG(0x401, 1, 0)));
    assert_eq!(f, LFS_MKTAG(0x201, 4, 6));
    // a delete below its id moves it down one
    let mut f = LFS_MKTAG(0x201, 3, 6);
    assert!(!lfs_dir_traverse_filter(&mut f, LFS_MKTAG(0x4ff, 1, 0)));
    assert_eq!(f, LFS_MKTAG(0x201, 2, 6));
}

#[test]
fn a_directory_tells_its_position() {
    let lfs = new_fs();
    let dir = LfsDir { id: 0, type_: 2, m: empty_dir(), pos: 17, head: [0, 1] };
    assert_eq!(lfs_dir_tell_(&lfs, &dir), 17);
}
