use littlefs_rust::allocator::lfs_alloc_drop;
use littlefs_rust::bd::{lfs_bd_erase, lfs_bd_prog, lfs_bd_sync, RamBlockDevice};
use littlefs_rust::commit::{lfs_dir_alloc, lfs_dir_commitattr, lfs_dir_commitcrc, lfs_dir_commitprog, LfsAttrData};
use littlefs_rust::ctz::lfs_ctz_extend;
use littlefs_rust::defines::{
    LfsCache, LfsCommit, LfsConfig, LfsCtz, LfsError, LfsMdir, LfsOpenFlags, LFS_BLOCK_INLINE, LFS_BLOCK_NULL,
};
use littlefs_rust::file::{
    lfs_dir_getread, lfs_file_flushedread, lfs_file_outline, lfs_file_relocate, lfs_file_size_, lfs_file_tell_,
    LfsFile,
};
use littlefs_rust::allocator::lfs_alloc;
use littlefs_rust::fs::{lfs_init, Lfs};
use littlefs_rust::tag::LFS_MKTAG;

fn config(block_size: u32) -> LfsConfig {
    LfsConfig {
        read_size: 16,
        prog_size: 16,
        block_size,
        block_count: 64,
        block_cycles: 500,
        cache_size: 64,
        lookahead_size: 8,
        compact_thresh: 0,
        name_max: 0,
        file_max: 0,
        attr_max: 0,
        metadata_max: 0,
        inline_max: 0,
        disk_version: 0,
    }
}

fn new_fs(block_size: u32) -> Lfs<RamBlockDevice> {
    let cfg = config(block_size);
    let mut lfs = lfs_init(RamBlockDevice::new(cfg.block_size, cfg.block_count), &cfg);
    lfs_alloc_drop(&mut lfs);
    lfs
}

fn cache(lfs: &Lfs<RamBlockDevice>) -> LfsCache {
    LfsCache { block: LFS_BLOCK_NULL, off: 0, size: 0, buffer: vec![0xff; lfs.cfg.cache_size as usize] }
}

fn empty_dir() -> LfsMdir {
    LfsMdir { pair: [0, 0], rev: 0, off: 0, etag: 0, count: 0, erased: false, split: false, tail: [0, 0] }
}

fn open_file(lfs: &Lfs<RamBlockDevice>, m: LfsMdir, head: u32, size: u32, flags: u32) -> LfsFile {
    LfsFile {
        id: 0,
        type_: 1,
        m,
        ctz: LfsCtz { head, size },
        flags,
        pos: 0,
        block: 0,
        off: 0,
        cache: cache(lfs),
    }
}

/// Writes a file of `nblocks` blocks whose byte `p` is `p % 251`, and
/// gives the head of its skip-list and its size.
fn write_ctz_file(lfs: &mut Lfs<RamBlockDevice>, nblocks: usize) -> (u32, u32) {
    let bs = lfs.cfg.block_size;
    let mut in_use: Vec<u32> = Vec::new();
    let mut head = LFS_BLOCK_NULL;
    let mut size: u32 = 0;
    for _ in 0..nblocks {
        let mut pcache = cache(lfs);
        let (mut block, mut off) = (0, 0);
        lfs_ctz_extend(lfs, &in_use, &mut pcache, head, size, &mut block, &mut off).unwrap();
        let fill: Vec<u8> = (0..bs - off).map(|k| ((size + k) % 251) as u8).collect();
        let cfg = lfs.cfg;
        let bc = lfs.block_count;
        lfs_bd_prog(&cfg, &mut lfs.bd, bc, &mut pcache, &mut lfs.rcache, false, block, off, &fill).unwrap();
        lfs_bd_sync(&cfg, &mut lfs.bd, bc, &mut pcache, &mut lfs.rcache, false).unwrap();
        in_use.push(block);
        head = block;
        size += bs - off;
    }
    (head, size)
}

#[test]
fn a_skip_list_file_reads_back_in_order() {
    let mut lfs = new_fs(128);
    let (head, size) = write_ctz_file(&mut lfs, 7);
    assert_eq!(size, 128 + 124 + 120 + 124 + 116 + 124 + 120);
    let mut file = open_file(&lfs, empty_dir(), head, size, LfsOpenFlags::RdOnly.bits());
    let mut got: Vec<u8> = Vec::new();
    // odd chunk sizes cross block boundaries at different places
    for chunk in [1u32, 7, 200, 3, 127, 300, 1000].iter() {
        let v = lfs_file_flushedread(&mut lfs, &mut file, *chunk).unwrap();
        got.extend_from_slice(&v);
    }
    let expect: Vec<u8> = (0..size).map(|p| (p % 251) as u8).collect();
    assert_eq!(got, expect);
    assert_eq!(file.pos, size);
    assert_eq!(lfs_file_tell_(&lfs, &file), size as i32);
    // at the end there is nothing more to read
    assert_eq!(lfs_file_flushedread(&mut lfs, &mut file, 10), Ok(vec![]));
}

#[test]
fn a_read_stops_at_the_end_of_the_file() {
    let mut lfs = new_fs(128);
    let (head, size) = write_ctz_file(&mut lfs, 3);
    let mut file = open_file(&lfs, empty_dir(), head, size, LfsOpenFlags::RdOnly.bits());
    file.pos = size - 5;
    let v = lfs_file_flushedread(&mut lfs, &mut file, 100).unwrap();
    let expect: Vec<u8> = (size - 5..size).map(|p| (p % 251) as u8).collect();
    assert_eq!(v, expect);
    assert_eq!(file.pos, size);
    assert!(file.flags & LfsOpenFlags::Reading.bits() != 0);
}

#[test]
fn a_read_at_a_position_starts_there() {
    let mut lfs = new_fs(128);
    let (head, size) = write_ctz_file(&mut lfs, 5);
    let mut file = open_file(&lfs, empty_dir(), head, size, LfsOpenFlags::RdOnly.bits());
    // byte 252 is the first data byte of block 2, past its two pointers
    file.pos = 252;
    let v = lfs_file_flushedread(&mut lfs, &mut file, 4).unwrap();
    assert_eq!(v, vec![1, 2, 3, 4]);
    assert_eq!(file.off, 12);
}

/// Commits a file entry "hello" holding "world!" inline into a new pair.
fn inline_file() -> (Lfs<RamBlockDevice>, LfsMdir) {
    let mut lfs = new_fs(512);
    let mut dir = empty_dir();
    lfs_dir_alloc(&mut lfs, &[], &mut dir).unwrap();
    lfs_bd_erase(&mut lfs.bd, dir.pair[0]).unwrap();
    let mut commit =
        LfsCommit { block: dir.pair[0], off: 0, ptag: 0xffff_ffff, crc: 0xffff_ffff, begin: 0, end: 512 - 8 };
    lfs_dir_commitprog(&mut lfs, &mut commit, &(dir.rev + 1).to_le_bytes()).unwrap();
    lfs_dir_commitattr(&mut lfs, &mut commit, LFS_MKTAG(0x401, 0, 0), &LfsAttrData::Mem(vec![])).unwrap();
    lfs_dir_commitattr(&mut lfs, &mut commit, LFS_MKTAG(0x001, 0, 5), &LfsAttrData::Mem(b"hello".to_vec()))
        .unwrap();
    lfs_dir_commitattr(&mut lfs, &mut commit, LFS_MKTAG(0x201, 0, 6), &LfsAttrData::Mem(b"world!".to_vec()))
        .unwrap();
    lfs_dir_commitcrc(&mut lfs, &mut commit).unwrap();
    dir.off = commit.off;
    dir.etag = commit.ptag;
    (lfs, dir)
}

#[test]
fn an_inline_file_reads_from_its_metadata() {
    let (mut lfs, dir) = inline_file();
    let flags = LfsOpenFlags::RdOnly.bits() | LfsOpenFlags::Inline.bits();
    let mut file = open_file(&lfs, dir, LFS_BLOCK_INLINE, 6, flags);
    let a = lfs_file_flushedread(&mut lfs, &mut file, 4).unwrap();
    assert_eq!(a, b"worl".to_vec());
    assert_eq!(file.block, LFS_BLOCK_INLINE);
    let b = lfs_file_flushedread(&mut lfs, &mut file, 4).unwrap();
    assert_eq!(b, b"d!".to_vec());
    assert_eq!(file.pos, 6);
    assert_eq!(lfs_file_size_(&lfs, &file), 6);
}

#[test]
fn inline_data_is_read_through_a_cache() {
    let (mut lfs, dir) = inline_file();
    let mut rcache = cache(&lfs);
    let gmask = LFS_MKTAG(0xfff, 0x1ff, 0);
    let gtag = LFS_MKTAG(0x201, 0, 0);
    let v = lfs_dir_getread(&mut lfs, &dir, None, &mut rcache, 512, gmask, gtag, 1, 4).unwrap();
    assert_eq!(v, b"orld".to_vec());
    assert_eq!(rcache.block, LFS_BLOCK_INLINE);
    assert_eq!(rcache.off, 0);
    // a second read is served from the cache
    let w = lfs_dir_getread(&mut lfs, &dir, None, &mut rcache, 512, gmask, gtag, 0, 6).unwrap();
    assert_eq!(w, b"world!".to_vec());
    // past the block is corrupt
    assert_eq!(
        lfs_dir_getread(&mut lfs, &dir, None, &mut rcache, 512, gmask, gtag, 510, 4),
        Err(LfsError::Corrupt)
    );
    // a missing entry is not there
    let mut fresh = cache(&lfs);
    assert_eq!(
        lfs_dir_getread(&mut lfs, &dir, None, &mut fresh, 512, gmask, LFS_MKTAG(0x201, 7, 0), 0, 1),
        Err(LfsError::NoEnt)
    );
}

#[test]
fn the_size_of_a_file_being_written_follows_its_position() {
    let lfs = new_fs(128);
    let mut file = open_file(&lfs, empty_dir(), LFS_BLOCK_NULL, 10, LfsOpenFlags::RdWr.bits());
    file.pos = 25;
    assert_eq!(lfs_file_size_(&lfs, &file), 10);
    file.flags |= LfsOpenFlags::Writing.bits();
    assert_eq!(lfs_file_size_(&lfs, &file), 25);
    file.pos = 3;
    assert_eq!(lfs_file_size_(&lfs, &file), 10);
}

/// A device erased and allocated for a file being written: its block and a
/// write cache holding `n` bytes `0, 1, ..` that have not reached the device.
fn writing_file(lfs: &mut Lfs<RamBlockDevice>, n: u32) -> LfsFile {
    let block = lfs_alloc(lfs, &[]).unwrap();
    lfs_bd_erase(&mut lfs.bd, block).unwrap();
    let mut file = open_file(lfs, empty_dir(), block, 0, LfsOpenFlags::RdWr.bits() | LfsOpenFlags::Writing.bits());
    file.block = block;
    let data: Vec<u8> = (0..n).map(|k| k as u8).collect();
    let cfg = lfs.cfg;
    let bc = lfs.block_count;
    lfs_bd_prog(&cfg, &mut lfs.bd, bc, &mut file.cache, &mut lfs.rcache, false, block, 0, &data).unwrap();
    file.off = n;
    file.pos = n;
    file
}

/// The bytes of `block` with the pending writes of `cache` over them.
fn seen(lfs: &Lfs<RamBlockDevice>, cache: &LfsCache, block: u32) -> Vec<u8> {
    let mut b = lfs.bd.data[block as usize].clone();
    if cache.block == block {
        for k in 0..cache.size {
            b[(cache.off + k) as usize] = cache.buffer[k as usize];
        }
    }
    b
}

#[test]
fn a_relocated_file_keeps_its_bytes_in_a_new_block() {
    let mut lfs = new_fs(128);
    // 40 bytes stay in the cache; 100 bytes fill one cache window and spill
    for n in [40u32, 100].iter() {
        let mut file = writing_file(&mut lfs, *n);
        let old = file.block;
        lfs_file_relocate(&mut lfs, &[old], &mut file).unwrap();
        assert_ne!(file.block, old);
        assert!(file.flags & LfsOpenFlags::Writing.bits() != 0);
        assert_eq!(file.off, *n);
        assert_eq!(lfs.pcache.block, LFS_BLOCK_NULL);
        let got = seen(&lfs, &file.cache, file.block);
        let expect: Vec<u8> = (0..*n).map(|k| k as u8).collect();
        assert_eq!(got[..*n as usize].to_vec(), expect);
    }
}

#[test]
fn outlining_moves_inline_data_to_a_block() {
    let (mut lfs, dir) = inline_file();
    let flags = LfsOpenFlags::RdWr.bits() | LfsOpenFlags::Inline.bits();
    let mut file = open_file(&lfs, dir, LFS_BLOCK_INLINE, 6, flags);
    file.pos = 6;
    let in_use = [dir.pair[0], dir.pair[1]];
    lfs_file_outline(&mut lfs, &in_use, &mut file).unwrap();
    assert_eq!(file.flags & LfsOpenFlags::Inline.bits(), 0);
    assert!(file.flags & LfsOpenFlags::Writing.bits() != 0);
    assert!(!in_use.contains(&file.block));
    assert_eq!(file.off, 6);
    let got = seen(&lfs, &file.cache, file.block);
    assert_eq!(got[..6].to_vec(), b"world!".to_vec());
}

#[test]
fn a_cache_that_holds_a_read_answers_it_alone() {
    let (mut lfs, dir) = inline_file();
    // a cache of the inline data that has been written to since
    let mut rcache = cache(&lfs);
    rcache.block = LFS_BLOCK_INLINE;
    rcache.off = 0;
    rcache.size = 6;
    rcache.buffer[..6].copy_from_slice(b"WORLD?");
    let gmask = LFS_MKTAG(0xfff, 0x1ff, 0);
    let gtag = LFS_MKTAG(0x201, 0, 0);
    let v = lfs_dir_getread(&mut lfs, &dir, None, &mut rcache, 512, gmask, gtag, 2, 4).unwrap();
    assert_eq!(v, b"RLD?".to_vec());
    assert_eq!(rcache.size, 6);
}

#[test]
fn outlining_a_written_inline_file_keeps_what_was_written() {
    let (mut lfs, dir) = inline_file();
    let flags = LfsOpenFlags::RdWr.bits() | LfsOpenFlags::Inline.bits() | LfsOpenFlags::Writing.bits();
    let mut file = open_file(&lfs, dir, LFS_BLOCK_INLINE, 6, flags);
    file.cache.block = LFS_BLOCK_INLINE;
    file.cache.off = 0;
    file.cache.size = 8;
    file.cache.buffer[..8].copy_from_slice(b"world!!!");
    file.pos = 8;
    let in_use = [dir.pair[0], dir.pair[1]];
    lfs_file_outline(&mut lfs, &in_use, &mut file).unwrap();
    assert_eq!(file.flags & LfsOpenFlags::Inline.bits(), 0);
    let got = seen(&lfs, &file.cache, file.block);
    assert_eq!(got[..8].to_vec(), b"world!!!".to_vec());
}
