use littlefs_rust::allocator::lfs_alloc_drop;
use littlefs_rust::bd::{lfs_bd_prog, lfs_bd_sync, RamBlockDevice};
use littlefs_rust::ctz::lfs_ctz_extend;
use littlefs_rust::defines::{LfsCache, LfsConfig, LfsCtz, LfsError, LfsMdir, LfsOpenFlags, LfsWhenceFlags, LFS_BLOCK_NULL};
use littlefs_rust::file::{lfs_file_flushedread, LfsFile};
use littlefs_rust::fileops::{lfs_file_read_, lfs_file_rewind_, lfs_file_seek_, lfs_file_write_};
use littlefs_rust::flush::lfs_file_flush;
use littlefs_rust::fs::{lfs_init, Lfs};
use littlefs_rust::write::lfs_file_flushedwrite;

fn new_fs(block_size: u32) -> Lfs<RamBlockDevice> {
    let cfg = LfsConfig {
        read_size: 16,
        prog_size: 16,
        block_size,
        block_count: 64,
        block_cycles: 500,
        cache_size: 64,
        lookahead_size: 8,
        compact_thresh: 0,
        name_max: 0,
        file_max: 0,
        attr_max: 0,
        metadata_max: 0,
        inline_max: 0,
        disk_version: 0,
    };
    let mut lfs = lfs_init(RamBlockDevice::new(cfg.block_size, cfg.block_count), &cfg);
    lfs_alloc_drop(&mut lfs);
    lfs
}

fn new_file(lfs: &Lfs<RamBlockDevice>, head: u32, size: u32, flags: u32) -> LfsFile {
    LfsFile {
        id: 0,
        type_: 1,
        m: LfsMdir { pair: [0, 0], rev: 0, off: 0, etag: 0, count: 0, erased: false, split: false, tail: [0, 0] },
        ctz: LfsCtz { head, size },
        flags,
        pos: 0,
        block: 0,
        off: 0,
        cache: LfsCache { block: LFS_BLOCK_NULL, off: 0, size: 0, buffer: vec![0xff; lfs.cfg.cache_size as usize] },
    }
}

/// Writes a committed file of `nblocks` blocks whose byte `p` is
/// `p % 251`; gives its head, its size and its blocks.
fn committed_file(lfs: &mut Lfs<RamBlockDevice>, nblocks: usize) -> (u32, u32, Vec<u32>) {
    let bs = lfs.cfg.block_size;
    let mut in_use: Vec<u32> = Vec::new();
    let mut head = LFS_BLOCK_NULL;
    let mut size: u32 = 0;
    for _ in 0..nblocks {
        let mut pcache =
            LfsCache { block: LFS_BLOCK_NULL, off: 0, size: 0, buffer: vec![0xff; lfs.cfg.cache_size as usize] };
        let (mut block, mut off) = (0, 0);
        lfs_ctz_extend(lfs, &in_use, &mut pcache, head, size, &mut block, &mut off).unwrap();
        let fill: Vec<u8> = (0..bs - off).map(|k| ((size + k) % 251) as u8).collect();
        let cfg = lfs.cfg;
        let bc = lfs.block_count;
        lfs_bd_prog(&cfg, &mut lfs.bd, bc, &mut pcache, &mut lfs.rcache, false, block, off, &fill).unwrap();
        lfs_bd_sync(&cfg, &mut lfs.bd, bc, &mut pcache, &mut lfs.rcache, false).unwrap();
        in_use.push(block);
        head = block;
        size += bs - off;
    }
    (head, size, in_use)
}

fn rdwr() -> u32 {
    LfsOpenFlags::RdWr.bits()
}

#[test]
fn written_bytes_read_back_after_a_seek() {
    let mut lfs = new_fs(128);
    let mut file = new_file(&lfs, LFS_BLOCK_NULL, 0, rdwr());
    let data: Vec<u8> = (0..300u32).map(|k| (k * 7 % 256) as u8).collect();
    assert_eq!(lfs_file_write_(&mut lfs, &[], &mut file, &data), Ok(300));
    assert_eq!(file.pos, 300);
    assert!(file.flags & LfsOpenFlags::Writing.bits() != 0);
    assert_eq!(lfs_file_seek_(&mut lfs, &[], &mut file, 0, LfsWhenceFlags::SeekSet), Ok(0));
    assert_eq!(file.ctz.size, 300);
    assert_eq!(file.flags & LfsOpenFlags::Writing.bits(), 0);
    assert!(file.flags & LfsOpenFlags::Dirty.bits() != 0);
    let got = lfs_file_read_(&mut lfs, &[], &mut file, 1000).unwrap();
    assert_eq!(got, data);
    assert_eq!(file.pos, 300);
}

#[test]
fn a_read_commits_a_pending_write_first() {
    let mut lfs = new_fs(128);
    let mut file = new_file(&lfs, LFS_BLOCK_NULL, 0, rdwr());
    assert_eq!(lfs_file_write_(&mut lfs, &[], &mut file, b"hello"), Ok(5));
    // the read starts at the position, the end of what was written
    let got = lfs_file_read_(&mut lfs, &[], &mut file, 10).unwrap();
    assert_eq!(got.len(), 0);
    assert_eq!(file.ctz.size, 5);
    lfs_file_rewind_(&mut lfs, &[], &mut file).unwrap();
    assert_eq!(lfs_file_read_(&mut lfs, &[], &mut file, 10).unwrap(), b"hello".to_vec());
}

#[test]
fn writing_in_the_middle_keeps_the_rest_of_the_file() {
    let mut lfs = new_fs(128);
    let (head, size, in_use) = committed_file(&mut lfs, 3);
    let mut file = new_file(&lfs, head, size, rdwr());
    assert_eq!(lfs_file_seek_(&mut lfs, &in_use, &mut file, 130, LfsWhenceFlags::SeekSet), Ok(130));
    assert_eq!(lfs_file_write_(&mut lfs, &in_use, &mut file, &[1, 2, 3]), Ok(3));
    lfs_file_flush(&mut lfs, &in_use, &mut file).unwrap();
    assert_eq!(file.ctz.size, size);
    assert_eq!(file.pos, 133);
    assert!(!in_use.contains(&file.ctz.head));
    lfs_file_rewind_(&mut lfs, &in_use, &mut file).unwrap();
    let got = lfs_file_read_(&mut lfs, &in_use, &mut file, size).unwrap();
    let mut expect: Vec<u8> = (0..size).map(|p| (p % 251) as u8).collect();
    expect[130] = 1;
    expect[131] = 2;
    expect[132] = 3;
    assert_eq!(got, expect);
    // the old list is untouched
    let mut old = new_file(&lfs, head, size, LfsOpenFlags::RdOnly.bits());
    let before = lfs_file_flushedread(&mut lfs, &mut old, size).unwrap();
    assert_eq!(before, (0..size).map(|p| (p % 251) as u8).collect::<Vec<u8>>());
}

#[test]
fn a_write_past_the_end_fills_the_gap_with_zeros() {
    let mut lfs = new_fs(128);
    let mut file = new_file(&lfs, LFS_BLOCK_NULL, 0, rdwr());
    assert_eq!(lfs_file_write_(&mut lfs, &[], &mut file, b"ab"), Ok(2));
    lfs_file_flush(&mut lfs, &[], &mut file).unwrap();
    assert_eq!(lfs_file_seek_(&mut lfs, &[], &mut file, 5, LfsWhenceFlags::SeekCur), Ok(7));
    assert_eq!(lfs_file_write_(&mut lfs, &[], &mut file, b"z"), Ok(1));
    assert_eq!(file.pos, 8);
    lfs_file_rewind_(&mut lfs, &[], &mut file).unwrap();
    assert_eq!(file.ctz.size, 8);
    let got = lfs_file_read_(&mut lfs, &[], &mut file, 100).unwrap();
    assert_eq!(got, vec![b'a', b'b', 0, 0, 0, 0, 0, b'z']);
}

#[test]
fn an_appending_file_writes_at_its_end() {
    let mut lfs = new_fs(128);
    let (head, size, in_use) = committed_file(&mut lfs, 1);
    let mut file = new_file(&lfs, head, size, rdwr() | LfsOpenFlags::Append.bits());
    assert_eq!(file.pos, 0);
    assert_eq!(lfs_file_write_(&mut lfs, &in_use, &mut file, &[9, 9]), Ok(2));
    assert_eq!(file.pos, size + 2);
    lfs_file_rewind_(&mut lfs, &in_use, &mut file).unwrap();
    let got = lfs_file_read_(&mut lfs, &in_use, &mut file, 1000).unwrap();
    let mut expect: Vec<u8> = (0..size).map(|p| (p % 251) as u8).collect();
    expect.push(9);
    expect.push(9);
    assert_eq!(got, expect);
}

#[test]
fn a_file_opened_only_for_reading_refuses_a_write() {
    let mut lfs = new_fs(128);
    let mut file = new_file(&lfs, LFS_BLOCK_NULL, 0, LfsOpenFlags::RdOnly.bits());
    assert_eq!(lfs_file_write_(&mut lfs, &[], &mut file, b"x"), Err(LfsError::BadF));
    assert_eq!(file.pos, 0);
    assert_eq!(file.flags, LfsOpenFlags::RdOnly.bits());
}

#[test]
fn a_write_past_the_largest_size_is_refused() {
    let mut lfs = new_fs(128);
    let mut file = new_file(&lfs, LFS_BLOCK_NULL, 0, rdwr());
    let max = lfs.file_max;
    file.pos = max;
    assert_eq!(lfs_file_write_(&mut lfs, &[], &mut file, b"x"), Err(LfsError::FBig));
    assert_eq!(file.pos, max);
}

#[test]
fn seeking_outside_the_file_size_limit_is_refused() {
    let mut lfs = new_fs(128);
    let mut file = new_file(&lfs, LFS_BLOCK_NULL, 0, rdwr());
    assert_eq!(lfs_file_seek_(&mut lfs, &[], &mut file, -1, LfsWhenceFlags::SeekSet), Err(LfsError::Inval));
    assert_eq!(lfs_file_seek_(&mut lfs, &[], &mut file, -1, LfsWhenceFlags::SeekCur), Err(LfsError::Inval));
    assert_eq!(file.pos, 0);
    assert_eq!(lfs_file_seek_(&mut lfs, &[], &mut file, 3, LfsWhenceFlags::SeekSet), Ok(3));
    assert_eq!(file.pos, 3);
}

#[test]
fn seeking_from_the_end_counts_pending_bytes() {
    let mut lfs = new_fs(128);
    let mut file = new_file(&lfs, LFS_BLOCK_NULL, 0, rdwr());
    assert_eq!(lfs_file_write_(&mut lfs, &[], &mut file, b"0123456789"), Ok(10));
    assert_eq!(lfs_file_seek_(&mut lfs, &[], &mut file, -4, LfsWhenceFlags::SeekEnd), Ok(6));
    assert_eq!(lfs_file_read_(&mut lfs, &[], &mut file, 10).unwrap(), b"6789".to_vec());
}

#[test]
fn a_seek_within_the_cached_part_of_a_block_only_moves_the_offset() {
    let mut lfs = new_fs(128);
    let (head, size, in_use) = committed_file(&mut lfs, 2);
    let mut file = new_file(&lfs, head, size, LfsOpenFlags::RdOnly.bits());
    assert_eq!(lfs_file_read_(&mut lfs, &in_use, &mut file, 4).unwrap(), vec![0, 1, 2, 3]);
    let cached = file.cache.block;
    assert_eq!(lfs_file_seek_(&mut lfs, &in_use, &mut file, 10, LfsWhenceFlags::SeekSet), Ok(10));
    assert!(file.flags & LfsOpenFlags::Reading.bits() != 0);
    assert_eq!(file.cache.block, cached);
    assert_eq!(file.off, 10);
    assert_eq!(lfs_file_read_(&mut lfs, &in_use, &mut file, 2).unwrap(), vec![10, 11]);
}

#[test]
fn flushing_a_reading_file_only_stops_the_read() {
    let mut lfs = new_fs(128);
    let (head, size, in_use) = committed_file(&mut lfs, 1);
    let mut file = new_file(&lfs, head, size, LfsOpenFlags::RdOnly.bits());
    lfs_file_read_(&mut lfs, &in_use, &mut file, 3).unwrap();
    assert!(file.flags & LfsOpenFlags::Reading.bits() != 0);
    lfs_file_flush(&mut lfs, &in_use, &mut file).unwrap();
    assert_eq!(file.flags, LfsOpenFlags::RdOnly.bits());
    assert_eq!(file.cache.block, LFS_BLOCK_NULL);
    assert_eq!(file.pos, 3);
    assert_eq!(file.ctz.size, size);
}

#[test]
fn a_flush_of_a_file_written_block_by_block_commits_its_list() {
    let mut lfs = new_fs(128);
    let mut file = new_file(&lfs, LFS_BLOCK_NULL, 0, rdwr());
    let data: Vec<u8> = (0..600u32).map(|k| (k % 13) as u8).collect();
    for chunk in data.chunks(37) {
        let n = lfs_file_flushedwrite(&mut lfs, &[], &mut file, chunk).unwrap();
        assert_eq!(n as usize, chunk.len());
    }
    lfs_file_flush(&mut lfs, &[], &mut file).unwrap();
    assert_eq!(file.ctz.size, 600);
    assert_eq!(file.ctz.head, file.block);
    let mut reader = new_file(&lfs, file.ctz.head, 600, LfsOpenFlags::RdOnly.bits());
    assert_eq!(lfs_file_flushedread(&mut lfs, &mut reader, 600).unwrap(), data);
}
