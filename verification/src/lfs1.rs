//! The first on-disk format, read when migrating an old filesystem: its
//! directory, entry and superblock records and the fetching of its
//! directory blocks.
use vstd::prelude::*;
use crate::bd::{BlockDevice, lfs_bd_read, logical};
use crate::defines::{LfsBlock, LfsError, LfsMdir, LfsOff, LfsSize};
use crate::fs::{lfs_deinit, same_but_rcache, Lfs};
use crate::util::{
    crc_seq, le32_of, lemma_crc_concat, lfs_crc, lfs_fromle32, lfs_le32_decode, lfs_tole32,
    spec_fromle32,
};

verus! {

/// Where a file entry's data lives: the head of its skip-list and its size.
#[derive(Debug, Clone, Copy, PartialEq, Eq, Structural)]
pub struct LfsDiskEntryFile {
    pub head: LfsBlock,
    pub size: LfsSize,
}

/// An entry as stored in a directory block: its type, the lengths of its
/// attributes and name, and two words that hold a file's head and size or a
/// directory's pair.
#[derive(Debug, Clone, Copy)]
pub struct LfsDiskEntry {
    pub type_0: u8,
    pub elen: u8,
    pub alen: u8,
    pub nlen: u8,
    pub u: [LfsBlock; 2],
}

impl LfsDiskEntry {
    /// The entry's words read as a file.
    pub fn file(&self) -> (f: LfsDiskEntryFile)
        ensures
            f.head == self.u[0],
            f.size == self.u[1],
    {
        LfsDiskEntryFile { head: self.u[0], size: self.u[1] }
    }

    /// The entry's words read as a directory pair.
    pub fn dir(&self) -> (d: [LfsBlock; 2])
        ensures
            d == self.u,
    {
        self.u
    }
}

/// An entry and its offset in its directory block.
#[derive(Debug, Clone, Copy)]
pub struct LfsEntry {
    pub off: LfsOff,
    pub d: LfsDiskEntry,
}

/// The header of a directory block: revision, size (top bit: continued in
/// the tail) and the tail pair.
#[derive(Debug, Clone, Copy)]
pub struct LfsDiskDir {
    pub rev: u32,
    pub size: LfsSize,
    pub tail: [LfsBlock; 2],
}

/// The superblock entry of the first format.
#[derive(Debug, Clone, Copy)]
pub struct LfsDiskSuperblock {
    pub type_0: u8,
    pub elen: u8,
    pub alen: u8,
    pub nlen: u8,
    pub root: [LfsBlock; 2],
    pub block_size: u32,
    pub block_count: u32,
    pub version: u32,
    pub magic: [u8; 8],
}

/// The free-block window of the first format.
#[derive(Debug)]
pub struct LfsFree {
    pub end: LfsBlock,
    pub start: LfsBlock,
    pub off: LfsBlock,
    pub lookahead: Vec<u32>,
}

/// A region of a directory block rewritten by a commit: `oldlen` bytes at
/// `oldoff` replaced by `newlen` new bytes.
#[derive(Debug)]
pub struct LfsRegion {
    pub oldoff: LfsOff,
    pub oldlen: LfsSize,
    pub newdata: Vec<u8>,
    pub newlen: LfsSize,
}

/// Updates `crc` with `buffer`.
pub fn lfs1_crc(crc: &mut u32, buffer: &[u8])
    ensures
        *final(crc) == crc_seq(*old(crc), buffer@),
{
    *crc = lfs_crc(*crc, buffer);
}

/// Reads `size` bytes at `off` in `block` through the program and read
/// caches of the filesystem.
pub fn lfs1_bd_read<D: BlockDevice>(lfs: &mut Lfs<D>, block: LfsBlock, off: LfsOff, size: LfsSize) -> (r: Result<Vec<u8>, LfsError>)
    requires
        old(lfs).caches_ok(),
    ensures
        final(lfs).caches_ok(),
        same_but_rcache(*final(lfs), *old(lfs)),
        (off + size > old(lfs).cfg.block_size || block >= old(lfs).block_count) ==> r == Err::<Vec<u8>, LfsError>(
            LfsError::Corrupt,
        ),
        r matches Ok(v) ==> {
            &&& off + size <= old(lfs).cfg.block_size
            &&& block < old(lfs).block_count
            &&& v@ == logical(old(lfs).bd.blocks(), Some(&old(lfs).pcache))[block as int].subrange(
                off as int,
                off + size,
            )
        },
        r matches Err(e) ==> e != LfsError::NoEnt,
        off + size <= old(lfs).cfg.block_size && block < old(lfs).block_count && old(lfs).bd.reads_ok() ==> r is Ok,
{
    let bc = lfs.block_count;
    let hint = if size == 0 { 1 } else { size };
    lfs_bd_read(&lfs.cfg, &lfs.bd, bc, Some(&lfs.pcache), &mut lfs.rcache, hint, block, off, size)
}

/// Updates `crc` with `size` bytes at `off` in `block`, read one at a time
/// through the caches of the filesystem.
pub fn lfs1_bd_crc<D: BlockDevice>(lfs: &mut Lfs<D>, block: LfsBlock, off: LfsOff, size: LfsSize, crc: &mut u32) -> (r: Result<(), LfsError>)
    requires
        old(lfs).caches_ok(),
    ensures
        final(lfs).caches_ok(),
        same_but_rcache(*final(lfs), *old(lfs)),
        (size > 0 && block >= old(lfs).block_count) ==> r == Err::<(), LfsError>(LfsError::Corrupt),
        size == 0 ==> r is Ok && *final(crc) == *old(crc),
        r is Ok && size > 0 ==> {
            &&& off + size <= old(lfs).cfg.block_size
            &&& block < old(lfs).block_count
            &&& *final(crc) == crc_seq(
                *old(crc),
                logical(old(lfs).bd.blocks(), Some(&old(lfs).pcache))[block as int].subrange(off as int, off + size),
            )
        },
        r matches Err(e) ==> e != LfsError::NoEnt,
        off + size <= old(lfs).cfg.block_size && block < old(lfs).block_count && old(lfs).bd.reads_ok() ==> r is Ok,
{
    let ghost lb = logical(lfs.bd.blocks(), Some(&lfs.pcache))[block as int];
    let ghost c0 = *crc;
    let bs = lfs.cfg.block_size;
    let mut i: u32 = 0;
    while i < size
        invariant
            lfs.caches_ok(),
            same_but_rcache(*lfs, *old(lfs)),
            lb == logical(old(lfs).bd.blocks(), Some(&old(lfs).pcache))[block as int],
            bs == lfs.cfg.block_size,
            i <= size,
            i > 0 ==> off + i <= bs && block < lfs.block_count,
            i == 0 ==> *crc == c0,
            i > 0 ==> *crc == crc_seq(c0, lb.subrange(off as int, off + i)),
            c0 == *old(crc),
        decreases size - i,
    {
        if off > u32::MAX - i {
            return Err(LfsError::Corrupt);
        }
        let c = lfs1_bd_read(lfs, block, off + i, 1)?;
        lfs1_crc(crc, c.as_slice());
        proof {
            if i == 0 {
                assert(c@ =~= lb.subrange(off as int, off + 1));
            } else {
                lemma_crc_concat(c0, lb.subrange(off as int, off + i), c@);
                assert(lb.subrange(off as int, off + i) + c@ =~= lb.subrange(off as int, off + i + 1));
            }
        }
        i = i + 1;
    }
    Ok(())
}

/// Converts a directory header from its little-endian storage.
pub fn lfs1_dir_fromle32(d: &mut LfsDiskDir)
    ensures
        final(d).rev == spec_fromle32(old(d).rev),
        final(d).size == spec_fromle32(old(d).size),
        final(d).tail[0] == spec_fromle32(old(d).tail[0]),
        final(d).tail[1] == spec_fromle32(old(d).tail[1]),
{
    d.rev = lfs_fromle32(d.rev);
    d.size = lfs_fromle32(d.size);
    d.tail[0] = lfs_fromle32(d.tail[0]);
    d.tail[1] = lfs_fromle32(d.tail[1]);
}

/// Converts a directory header to its little-endian storage.
pub fn lfs1_dir_tole32(d: &mut LfsDiskDir)
    ensures
        final(d).rev == spec_fromle32(old(d).rev),
        final(d).size == spec_fromle32(old(d).size),
        final(d).tail[0] == spec_fromle32(old(d).tail[0]),
        final(d).tail[1] == spec_fromle32(old(d).tail[1]),
{
    d.rev = lfs_tole32(d.rev);
    d.size = lfs_tole32(d.size);
    d.tail[0] = lfs_tole32(d.tail[0]);
    d.tail[1] = lfs_tole32(d.tail[1]);
}

/// Converts an entry's words from their little-endian storage.
pub fn lfs1_entry_fromle32(d: &mut LfsDiskEntry)
    ensures
        final(d).u[0] == spec_fromle32(old(d).u[0]),
        final(d).u[1] == spec_fromle32(old(d).u[1]),
        final(d).type_0 == old(d).type_0,
        final(d).elen == old(d).elen,
        final(d).alen == old(d).alen,
        final(d).nlen == old(d).nlen,
{
    d.u[0] = lfs_fromle32(d.u[0]);
    d.u[1] = lfs_fromle32(d.u[1]);
}

/// Converts an entry's words to their little-endian storage.
pub fn lfs1_entry_tole32(d: &mut LfsDiskEntry)
    ensures
        final(d).u[0] == spec_fromle32(old(d).u[0]),
        final(d).u[1] == spec_fromle32(old(d).u[1]),
        final(d).type_0 == old(d).type_0,
        final(d).elen == old(d).elen,
        final(d).alen == old(d).alen,
        final(d).nlen == old(d).nlen,
{
    d.u[0] = lfs_tole32(d.u[0]);
    d.u[1] = lfs_tole32(d.u[1]);
}

/// Converts a superblock's words from their little-endian storage.
pub fn lfs1_superblock_fromle32(d: &mut LfsDiskSuperblock)
    ensures
        final(d).block_size == spec_fromle32(old(d).block_size),
        final(d).block_count == spec_fromle32(old(d).block_count),
        final(d).version == spec_fromle32(old(d).version),
        final(d).root == old(d).root,
        final(d).magic == old(d).magic,
{
    d.block_size = lfs_fromle32(d.block_size);
    d.block_count = lfs_fromle32(d.block_count);
    d.version = lfs_fromle32(d.version);
}

/// The bytes an entry takes in its directory block.
pub fn lfs1_entry_size(entry: &LfsEntry) -> (r: LfsSize)
    ensures
        r == 4 + entry.d.elen + entry.d.alen + entry.d.nlen,
{
    4 + entry.d.elen as u32 + entry.d.alen as u32 + entry.d.nlen as u32
}

/// The header at the start of a directory block.
pub open spec fn v1_dir_header(b: Seq<u8>) -> LfsDiskDir {
    LfsDiskDir {
        rev: le32_of(b.subrange(0, 4)),
        size: le32_of(b.subrange(4, 8)),
        tail: [le32_of(b.subrange(8, 12)), le32_of(b.subrange(12, 16))],
    }
}

/// A directory block is valid when its size (without the continuation bit)
/// covers its header and a checksum and fits the block, and the checksum
/// over that many bytes comes out zero.
pub open spec fn v1_dir_valid(block_size: u32, b: Seq<u8>) -> bool {
    let size = v1_dir_header(b).size & 0x7fff_ffffu32;
    &&& 20 <= size <= block_size
    &&& crc_seq(0xffff_ffffu32, b.subrange(0, size as int)) == 0
}

/// Block `i` of `pair` lies on the device and holds a valid directory.
pub open spec fn v1_pair_valid(l: Seq<Seq<u8>>, block_size: u32, pair: [LfsBlock; 2], i: int) -> bool {
    pair[i] < l.len() && v1_dir_valid(block_size, l[pair[i] as int])
}

/// Whether a fetch of `pair` takes its second block: it is valid, and the
/// first is not or has no newer revision.
pub open spec fn v1_takes_second(l: Seq<Seq<u8>>, block_size: u32, pair: [LfsBlock; 2]) -> bool {
    &&& v1_pair_valid(l, block_size, pair, 1)
    &&& !(v1_pair_valid(l, block_size, pair, 0) && v1_dir_header(l[pair[1] as int]).rev < v1_dir_header(
        l[pair[0] as int],
    ).rev)
}

/// `dir` was fetched from the block `b` of the pair, `o` being the other one.
pub open spec fn v1_fetched(l: Seq<Seq<u8>>, block_size: u32, dir: LfsMdir, b: u32, o: u32) -> bool {
    &&& b < l.len()
    &&& v1_dir_valid(block_size, l[b as int])
    &&& dir.pair == [b, o]
    &&& dir.off == 16
    &&& dir.rev == v1_dir_header(l[b as int]).rev
    &&& dir.tail == v1_dir_header(l[b as int]).tail
}

/// Fetches a directory of the first format from whichever block of `pair`
/// is valid, preferring the later block unless its revision is older.
pub fn lfs1_dir_fetch<D: BlockDevice>(lfs: &mut Lfs<D>, dir: &mut LfsMdir, pair: [LfsBlock; 2]) -> (r: Result<(), LfsError>)
    requires
        old(lfs).caches_ok(),
    ensures
        final(lfs).caches_ok(),
        same_but_rcache(*final(lfs), *old(lfs)),
        r is Ok ==> {
            let l = logical(old(lfs).bd.blocks(), Some(&old(lfs).pcache));
            ||| v1_fetched(l, old(lfs).cfg.block_size, *final(dir), pair[0], pair[1])
            ||| v1_fetched(l, old(lfs).cfg.block_size, *final(dir), pair[1], pair[0])
        },
        ({
            let l = logical(old(lfs).bd.blocks(), Some(&old(lfs).pcache));
            (forall|i: int|
                0 <= i < 2 ==> pair[i] >= l.len() || !v1_dir_valid(old(lfs).cfg.block_size, #[trigger] l[pair[i] as int]))
                ==> r is Err
        }),
        old(lfs).bd.reads_ok() ==> {
            let l = logical(old(lfs).bd.blocks(), Some(&old(lfs).pcache));
            let bs = old(lfs).cfg.block_size;
            &&& (v1_pair_valid(l, bs, pair, 0) || v1_pair_valid(l, bs, pair, 1)) ==> r is Ok
            &&& !(v1_pair_valid(l, bs, pair, 0) || v1_pair_valid(l, bs, pair, 1)) ==> r == Err::<(), LfsError>(
                LfsError::Corrupt,
            )
            &&& r is Ok ==> if v1_takes_second(l, bs, pair) {
                v1_fetched(l, bs, *final(dir), pair[1], pair[0])
            } else {
                v1_fetched(l, bs, *final(dir), pair[0], pair[1])
            }
        },
{
    let ghost l = logical(lfs.bd.blocks(), Some(&lfs.pcache));
    let bc = lfs.block_count;
    let bs = lfs.cfg.block_size;
    let mut valid = false;
    let mut i: usize = 0;
    while i < 2
        invariant
            lfs.caches_ok(),
            same_but_rcache(*lfs, *old(lfs)),
            bc == lfs.block_count,
            bs == lfs.cfg.block_size,
            l == logical(lfs.bd.blocks(), Some(&lfs.pcache)),
            i <= 2,
            valid ==> (v1_fetched(l, bs, *dir, pair[0], pair[1]) || v1_fetched(l, bs, *dir, pair[1], pair[0])),
            valid ==> exists|j: int| 0 <= j < i && pair[j] < l.len() && v1_dir_valid(bs, #[trigger] l[pair[j] as int]),
            lfs.bd.reads_ok() == old(lfs).bd.reads_ok(),
            old(lfs).bd.reads_ok() && i >= 1 ==> (valid <==> (v1_pair_valid(l, bs, pair, 0) || (i == 2
                && v1_pair_valid(l, bs, pair, 1)))),
            old(lfs).bd.reads_ok() && i == 1 && valid ==> v1_fetched(l, bs, *dir, pair[0], pair[1]),
            old(lfs).bd.reads_ok() && i == 2 && valid ==> if v1_takes_second(l, bs, pair) {
                v1_fetched(l, bs, *dir, pair[1], pair[0])
            } else {
                v1_fetched(l, bs, *dir, pair[0], pair[1])
            },
        decreases 2 - i,
    {
        let blk = pair[i];
        let other = pair[1 - i];
        let hdr = match lfs1_bd_read(lfs, blk, 0, 16) {
            Ok(v) => v,
            Err(LfsError::Corrupt) => {
                i = i + 1;
                continue;
            },
            Err(e) => {
                return Err(e);
            },
        };
        let rev = lfs_le32_decode(hdr.as_slice(), 0);
        let dsize = lfs_le32_decode(hdr.as_slice(), 4);
        let tail0 = lfs_le32_decode(hdr.as_slice(), 8);
        let tail1 = lfs_le32_decode(hdr.as_slice(), 12);
        proof {
            let b = l[blk as int];
            assert(hdr@ == b.subrange(0, 16));
            assert(hdr@.subrange(0, 4) =~= b.subrange(0, 4));
            assert(hdr@.subrange(4, 8) =~= b.subrange(4, 8));
            assert(hdr@.subrange(8, 12) =~= b.subrange(8, 12));
            assert(hdr@.subrange(12, 16) =~= b.subrange(12, 16));
            assert(rev == v1_dir_header(b).rev);
            assert(dsize == v1_dir_header(b).size);
        }
        if valid && rev < dir.rev {
            i = i + 1;
            continue;
        }
        let size = dsize & 0x7fff_ffff;
        if size < 20 || size > bs {
            i = i + 1;
            continue;
        }
        let mut crc: u32 = 0xffff_ffff;
        lfs1_crc(&mut crc, hdr.as_slice());
        let res = lfs1_bd_crc(lfs, blk, 16, size - 16, &mut crc);
        match res {
            Ok(()) => {},
            Err(LfsError::Corrupt) => {
                i = i + 1;
                continue;
            },
            Err(e) => {
                return Err(e);
            },
        }
        proof {
            let b = l[blk as int];
            assert(hdr@ == b.subrange(0, 16));
            assert(hdr@.subrange(0, 4) =~= b.subrange(0, 4));
            assert(hdr@.subrange(4, 8) =~= b.subrange(4, 8));
            assert(hdr@.subrange(8, 12) =~= b.subrange(8, 12));
            assert(hdr@.subrange(12, 16) =~= b.subrange(12, 16));
            lemma_crc_concat(0xffff_ffffu32, b.subrange(0, 16), b.subrange(16, size as int));
            assert(b.subrange(0, 16) + b.subrange(16, size as int) =~= b.subrange(0, size as int));
        }
        if crc != 0 {
            i = i + 1;
            continue;
        }
        valid = true;
        dir.pair = [blk, other];
        dir.off = 16;
        dir.rev = rev;
        dir.tail = [tail0, tail1];
        proof {
            assert(v1_dir_valid(bs, l[pair[i as int] as int]));
        }
        i = i + 1;
    }
    if !valid {
        return Err(LfsError::Corrupt);
    }
    Ok(())
}

/// Acknowledges the blocks allocated so far: the free-block window may now
/// run a whole device ahead of where it is.
pub fn lfs_alloc_ack(free: &mut LfsFree, block_count: LfsSize)
    ensures
        final(free).end == ((old(free).start + old(free).off + block_count) % 0x1_0000_0000) as u32,
        final(free).start == old(free).start,
        final(free).off == old(free).off,
        final(free).lookahead == old(free).lookahead,
{
    free.end = free.start.wrapping_add(free.off).wrapping_add(block_count);
    proof {
        vstd::arithmetic::div_mod::lemma_add_mod_noop(free.start + free.off, block_count as int, 0x1_0000_0000);
    }
}

/// Stops reading a filesystem of the first format, handing its block
/// device back.
pub fn lfs1_unmount<D: BlockDevice>(lfs: Lfs<D>) -> (bd: D)
    ensures
        bd == lfs.bd,
{
    lfs_deinit(lfs)
}

} // verus!
