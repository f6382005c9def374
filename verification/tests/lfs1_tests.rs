use littlefs_rust::bd::RamBlockDevice;
use littlefs_rust::defines::{LfsConfig, LfsError, LfsMdir, LFS_BLOCK_NULL};
use littlefs_rust::fs::{lfs_init, Lfs};
use littlefs_rust::lfs1::{
    lfs1_bd_crc, lfs1_bd_read, lfs1_unmount, lfs_alloc_ack, LfsFree, lfs1_crc, lfs1_dir_fetch, lfs1_dir_fromle32, lfs1_dir_tole32, lfs1_entry_fromle32,
    lfs1_entry_size, lfs1_entry_tole32, lfs1_superblock_fromle32, LfsDiskDir, LfsDiskEntry,
    LfsDiskSuperblock, LfsEntry,
};
use littlefs_rust::util::lfs_crc;

fn config() -> LfsConfig {
    LfsConfig {
        read_size: 16,
        prog_size: 16,
        block_size: 256,
        block_count: 4,
        block_cycles: 500,
        cache_size: 64,
        lookahead_size: 16,
        compact_thresh: 0,
        name_max: 0,
        file_max: 0,
        attr_max: 0,
        metadata_max: 0,
        inline_max: 0,
        disk_version: 0,
    }
}

fn dir_block(rev: u32, payload: &[u8]) -> Vec<u8> {
    let size = (16 + payload.len() + 4) as u32;
    let mut b = Vec::new();
    b.extend_from_slice(&rev.to_le_bytes());
    b.extend_from_slice(&size.to_le_bytes());
    b.extend_from_slice(&LFS_BLOCK_NULL.to_le_bytes());
    b.extend_from_slice(&LFS_BLOCK_NULL.to_le_bytes());
    b.extend_from_slice(payload);
    let c = lfs_crc(0xffff_ffff, &b);
    b.extend_from_slice(&c.to_le_bytes());
    b.resize(256, 0xff);
    b
}

fn fs_with(blocks: Vec<Vec<u8>>) -> Lfs<RamBlockDevice> {
    let cfg = config();
    lfs_init(RamBlockDevice { data: blocks }, &cfg)
}

fn empty_dir() -> LfsMdir {
    LfsMdir { pair: [0, 0], rev: 0, off: 0, etag: 0, count: 0, erased: false, split: false, tail: [0, 0] }
}

#[test]
fn entry_size_adds_the_lengths() {
    let e = LfsEntry {
        off: 0,
        d: LfsDiskEntry { type_0: 0x11, elen: 8, alen: 2, nlen: 5, u: [3, 100] },
    };
    assert_eq!(lfs1_entry_size(&e), 19);
    assert_eq!(e.d.file().head, 3);
    assert_eq!(e.d.file().size, 100);
    assert_eq!(e.d.dir(), [3, 100]);
}

#[test]
fn v1_records_round_trip_through_storage() {
    let mut d = LfsDiskDir { rev: 9, size: 0x8000_0040, tail: [1, 2] };
    lfs1_dir_tole32(&mut d);
    lfs1_dir_fromle32(&mut d);
    assert_eq!((d.rev, d.size, d.tail), (9, 0x8000_0040, [1, 2]));
    let mut e = LfsDiskEntry { type_0: 0x22, elen: 8, alen: 0, nlen: 3, u: [7, 8] };
    lfs1_entry_tole32(&mut e);
    lfs1_entry_fromle32(&mut e);
    assert_eq!(e.u, [7, 8]);
    let mut s = LfsDiskSuperblock {
        type_0: 0x2e,
        elen: 20,
        alen: 0,
        nlen: 8,
        root: [0, 1],
        block_size: 512,
        block_count: 1024,
        version: 0x0001_0001,
        magic: *b"littlefs",
    };
    lfs1_superblock_fromle32(&mut s);
    assert_eq!((s.block_size, s.block_count, s.version), (512, 1024, 0x0001_0001));
}

#[test]
fn crc_helper_updates_in_place() {
    let mut c = 0xffff_ffffu32;
    lfs1_crc(&mut c, b"123456789");
    assert_eq!(c, 0x340b_c6d9);
}

#[test]
fn fetch_prefers_the_newer_valid_block() {
    let mut lfs = fs_with(vec![dir_block(5, b"old"), dir_block(6, b"new"), vec![0xff; 256], vec![0xff; 256]]);
    let mut dir = empty_dir();
    assert_eq!(lfs1_dir_fetch(&mut lfs, &mut dir, [0, 1]), Ok(()));
    assert_eq!(dir.pair, [1, 0]);
    assert_eq!(dir.rev, 6);
    assert_eq!(dir.off, 16);
    assert_eq!(dir.tail, [LFS_BLOCK_NULL, LFS_BLOCK_NULL]);
}

#[test]
fn fetch_keeps_the_first_block_when_the_second_is_older() {
    let mut lfs = fs_with(vec![dir_block(7, b"a"), dir_block(6, b"b"), vec![0xff; 256], vec![0xff; 256]]);
    let mut dir = empty_dir();
    assert_eq!(lfs1_dir_fetch(&mut lfs, &mut dir, [0, 1]), Ok(()));
    assert_eq!(dir.pair, [0, 1]);
    assert_eq!(dir.rev, 7);
}

#[test]
fn fetch_skips_a_block_with_a_bad_checksum() {
    let mut bad = dir_block(9, b"xyz");
    bad[17] ^= 1;
    let mut lfs = fs_with(vec![dir_block(3, b"ok"), bad, vec![0xff; 256], vec![0xff; 256]]);
    let mut dir = empty_dir();
    assert_eq!(lfs1_dir_fetch(&mut lfs, &mut dir, [0, 1]), Ok(()));
    assert_eq!(dir.pair, [0, 1]);
    assert_eq!(dir.rev, 3);
}

#[test]
fn fetch_of_two_bad_blocks_is_corrupt() {
    let mut lfs = fs_with(vec![vec![0xff; 256], vec![0; 256], vec![0xff; 256], vec![0xff; 256]]);
    let mut dir = empty_dir();
    assert_eq!(lfs1_dir_fetch(&mut lfs, &mut dir, [0, 1]), Err(LfsError::Corrupt));
    assert_eq!(lfs1_dir_fetch(&mut lfs, &mut dir, [7, 9]), Err(LfsError::Corrupt));
}

#[test]
fn v1_reads_go_through_the_caches() {
    let mut blocks = vec![vec![0xffu8; 256]; 4];
    blocks[2][10..14].copy_from_slice(&[1, 2, 3, 4]);
    let mut lfs = fs_with(blocks);
    assert_eq!(lfs1_bd_read(&mut lfs, 2, 10, 4), Ok(vec![1, 2, 3, 4]));
    // pending writes in the program cache are seen
    lfs.pcache.block = 2;
    lfs.pcache.off = 0;
    lfs.pcache.size = 16;
    for k in 0..16 {
        lfs.pcache.buffer[k] = 0x40 + k as u8;
    }
    assert_eq!(lfs1_bd_read(&mut lfs, 2, 10, 8), Ok(vec![0x4a, 0x4b, 0x4c, 0x4d, 0x4e, 0x4f, 0xff, 0xff]));
    assert_eq!(lfs1_bd_read(&mut lfs, 2, 250, 8), Err(LfsError::Corrupt));
    assert_eq!(lfs1_bd_read(&mut lfs, 9, 0, 1), Err(LfsError::Corrupt));
}

#[test]
fn v1_checksums_read_byte_by_byte() {
    let mut blocks = vec![vec![0xffu8; 256]; 4];
    blocks[1][0..5].copy_from_slice(b"hello");
    let mut lfs = fs_with(blocks);
    let mut crc = 0xffff_ffffu32;
    assert_eq!(lfs1_bd_crc(&mut lfs, 1, 0, 5, &mut crc), Ok(()));
    assert_eq!(crc, lfs_crc(0xffff_ffff, b"hello"));
    let mut same = 7u32;
    assert_eq!(lfs1_bd_crc(&mut lfs, 1, 0, 0, &mut same), Ok(()));
    assert_eq!(same, 7);
    assert_eq!(lfs1_bd_crc(&mut lfs, 1, 250, 10, &mut crc), Err(LfsError::Corrupt));
}

#[test]
fn acknowledging_moves_the_window_end_a_device_ahead() {
    let mut free = LfsFree { end: 0, start: 5, off: 3, lookahead: vec![0; 2] };
    lfs_alloc_ack(&mut free, 100);
    assert_eq!(free.end, 108);
    let mut wrap = LfsFree { end: 0, start: 0xffff_fff0, off: 0x20, lookahead: vec![] };
    lfs_alloc_ack(&mut wrap, 4);
    assert_eq!(wrap.end, 0x14);
}

#[test]
fn leaving_an_old_filesystem_hands_the_device_back() {
    let lfs = fs_with(vec![vec![0x11u8; 256]; 4]);
    let bd = lfs1_unmount(lfs);
    assert_eq!(bd.data[3][255], 0x11);
}
