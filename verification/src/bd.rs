//! The block device and the read and program caches in front of it.
use vstd::prelude::*;
use crate::defines::{
    LfsBlock, LfsCache, LfsCmp, LfsConfig, LfsError, LfsOff, LfsSize, LFS_BLOCK_INLINE, LFS_BLOCK_NULL,
};
use crate::util::{crc_seq, lemma_crc_concat, lfs_aligndown, lfs_alignup, lfs_crc};

verus! {

/// `s` with `d` written over it from `off`.
pub open spec fn splice(s: Seq<u8>, off: int, d: Seq<u8>) -> Seq<u8> {
    s.subrange(0, off) + d + s.subrange(off + d.len(), s.len() as int)
}

/// A storage device of erasable blocks, as littlefs drives it.
pub trait BlockDevice {
    /// The contents of every block.
    spec fn blocks(&self) -> Seq<Seq<u8>>;

    /// Whether every read of this device succeeds.
    spec fn reads_ok(&self) -> bool;

    /// Whether every program, erase and sync of this device succeeds.
    spec fn writes_ok(&self) -> bool;

    /// Reads `size` bytes at `off` in `block`. A failure is reported as an
    /// I/O error or as corruption, never as a missing entry.
    fn read(&self, block: LfsBlock, off: LfsOff, size: LfsSize) -> (r: Result<Vec<u8>, LfsError>)
        requires
            block < self.blocks().len(),
            off + size <= self.blocks()[block as int].len(),
        ensures
            r matches Ok(v) ==> v@ == self.blocks()[block as int].subrange(off as int, off + size),
            r matches Err(e) ==> e != LfsError::NoEnt,
            self.reads_ok() ==> r is Ok,
    ;

    /// Programs `data` at `off` in `block`, which must have been erased. A
    /// program that fails may leave the bytes it was given in any state,
    /// but no others.
    fn prog(&mut self, block: LfsBlock, off: LfsOff, data: &[u8]) -> (r: Result<(), LfsError>)
        requires
            block < old(self).blocks().len(),
            off + data@.len() <= old(self).blocks()[block as int].len(),
        ensures
            final(self).blocks().len() == old(self).blocks().len(),
            forall|i: int|
                0 <= i < old(self).blocks().len() ==> #[trigger] final(self).blocks()[i].len()
                    == old(self).blocks()[i].len(),
            forall|i: int|
                0 <= i < old(self).blocks().len() && i != block ==> #[trigger] final(self).blocks()[i] == old(self).blocks()[i],
            r is Ok ==> final(self).blocks()[block as int] == splice(
                old(self).blocks()[block as int],
                off as int,
                data@,
            ),
            forall|k: int|
                0 <= k < old(self).blocks()[block as int].len() && !(off <= k < off + data@.len())
                    ==> #[trigger] final(self).blocks()[block as int][k] == old(self).blocks()[block as int][k],
            final(self).reads_ok() == old(self).reads_ok(),
            final(self).writes_ok() == old(self).writes_ok(),
            old(self).writes_ok() ==> r is Ok,
    ;

    /// Erases `block`; its contents afterwards are unspecified.
    fn erase(&mut self, block: LfsBlock) -> (r: Result<(), LfsError>)
        requires
            block < old(self).blocks().len(),
        ensures
            final(self).blocks().len() == old(self).blocks().len(),
            forall|i: int|
                0 <= i < old(self).blocks().len() ==> #[trigger] final(self).blocks()[i].len()
                    == old(self).blocks()[i].len(),
            forall|i: int|
                0 <= i < old(self).blocks().len() && i != block ==> #[trigger] final(self).blocks()[i] == old(self).blocks()[i],
            final(self).reads_ok() == old(self).reads_ok(),
            final(self).writes_ok() == old(self).writes_ok(),
            old(self).writes_ok() ==> r is Ok,
    ;

    /// Makes earlier programs durable.
    fn sync(&mut self) -> (r: Result<(), LfsError>)
        ensures
            final(self).blocks() == old(self).blocks(),
            final(self).reads_ok() == old(self).reads_ok(),
            final(self).writes_ok() == old(self).writes_ok(),
            old(self).writes_ok() ==> r is Ok,
    ;
}

/// A block device held in memory, erased to 0xff.
pub struct RamBlockDevice {
    pub data: Vec<Vec<u8>>,
}

impl RamBlockDevice {
    /// A device of `block_count` erased blocks of `block_size` bytes each.
    pub fn new(block_size: LfsSize, block_count: LfsSize) -> (d: RamBlockDevice)
        ensures
            d.blocks().len() == block_count,
            forall|i: int|
                0 <= i < block_count ==> #[trigger] d.blocks()[i] == Seq::new(
                    block_size as nat,
                    |j: int| 0xffu8,
                ),
    {
        let mut data: Vec<Vec<u8>> = Vec::new();
        let mut i: u32 = 0;
        while i < block_count
            invariant
                i <= block_count,
                data@.len() == i,
                forall|k: int|
                    0 <= k < i ==> #[trigger] data@[k]@ == Seq::new(block_size as nat, |j: int| 0xffu8),
            decreases block_count - i,
        {
            let blk = erased(block_size as usize);
            data.push(blk);
            i = i + 1;
        }
        RamBlockDevice { data }
    }
}

/// `n` bytes of 0xff.
pub(crate) fn erased(n: usize) -> (v: Vec<u8>)
    ensures
        v@ == Seq::new(n as nat, |j: int| 0xffu8),
{
    let mut v: Vec<u8> = Vec::new();
    let mut i: usize = 0;
    while i < n
        invariant
            i <= n,
            v@ == Seq::new(i as nat, |j: int| 0xffu8),
        decreases n - i,
    {
        v.push(0xff);
        i = i + 1;
    }
    v
}

impl BlockDevice for RamBlockDevice {
    open spec fn blocks(&self) -> Seq<Seq<u8>> {
        self.data@.map(|i: int, b: Vec<u8>| b@)
    }

    open spec fn reads_ok(&self) -> bool {
        true
    }

    open spec fn writes_ok(&self) -> bool {
        true
    }

    fn read(&self, block: LfsBlock, off: LfsOff, size: LfsSize) -> (r: Result<Vec<u8>, LfsError>) {
        let blk = &self.data[block as usize];
        let bl = blk.len();
        let mut v: Vec<u8> = Vec::new();
        let mut i: u32 = 0;
        while i < size
            invariant
                i <= size,
                bl == blk@.len(),
                off + size <= blk@.len(),
                v@ == blk@.subrange(off as int, off + i),
            decreases size - i,
        {
            v.push(blk[off as usize + i as usize]);
            i = i + 1;
            proof {
                assert(v@ =~= blk@.subrange(off as int, off + i));
            }
        }
        Ok(v)
    }

    fn prog(&mut self, block: LfsBlock, off: LfsOff, data: &[u8]) -> (r: Result<(), LfsError>)
        ensures
            r is Ok,
    {
        let ghost old_blocks = self.blocks();
        let mut nb: Vec<u8> = Vec::new();
        let len = self.data[block as usize].len();
        let mut i: usize = 0;
        while i < len
            invariant
                i <= len,
                block < old_blocks.len(),
                self.data@.len() == old_blocks.len(),
                len == self.data@[block as int]@.len(),
                len == old_blocks[block as int].len(),
                self.blocks() == old_blocks,
                off + data@.len() <= len,
                nb@ == splice(old_blocks[block as int], off as int, data@).subrange(0, i as int),
            decreases len - i,
        {
            let b = if i >= off as usize && i < off as usize + data.len() {
                data[i - off as usize]
            } else {
                self.data[block as usize][i]
            };
            nb.push(b);
            i = i + 1;
            proof {
                assert(nb@ =~= splice(old_blocks[block as int], off as int, data@).subrange(
                    0,
                    i as int,
                ));
            }
        }
        self.data.set(block as usize, nb);
        proof {
            assert(splice(old_blocks[block as int], off as int, data@).subrange(0, len as int)
                =~= splice(old_blocks[block as int], off as int, data@));
            assert forall|k: int| 0 <= k < old_blocks.len() && k != block implies #[trigger] self.blocks()[k]
                == old_blocks[k] by {}
            assert forall|k: int| 0 <= k < old_blocks.len() implies #[trigger] self.blocks()[k].len()
                == old_blocks[k].len() by {}
        }
        Ok(())
    }

    fn erase(&mut self, block: LfsBlock) -> (r: Result<(), LfsError>)
        ensures
            r is Ok,
            final(self).blocks()[block as int] == Seq::new(
                old(self).blocks()[block as int].len(),
                |j: int| 0xffu8,
            ),
    {
        let len = self.data[block as usize].len();
        let ghost old_blocks = self.blocks();
        let nb = erased(len);
        self.data.set(block as usize, nb);
        proof {
            assert forall|k: int| 0 <= k < old_blocks.len() implies #[trigger] self.blocks()[k].len()
                == old_blocks[k].len() by {}
            assert forall|k: int| 0 <= k < old_blocks.len() && k != block implies #[trigger] self.blocks()[k]
                == old_blocks[k] by {}
        }
        Ok(())
    }

    fn sync(&mut self) -> (r: Result<(), LfsError>)
        ensures
            r is Ok,
    {
        Ok(())
    }
}

} // verus!

verus! {

/// The cache sizes fit each other and the block size as littlefs needs.
pub open spec fn cache_geometry_ok(cfg: LfsConfig) -> bool {
    &&& cfg.read_size > 0
    &&& cfg.prog_size > 0
    &&& cfg.cache_size > 0
    &&& cfg.cache_size % cfg.read_size == 0
    &&& cfg.cache_size % cfg.prog_size == 0
    &&& cfg.block_size % cfg.cache_size == 0
    &&& cfg.block_size > 0
}

/// Every block of the device has the configured size, and no block number
/// reaches the markers for an inline file or no block.
pub open spec fn device_ok(cfg: LfsConfig, blocks: Seq<Seq<u8>>) -> bool {
    &&& blocks.len() < LFS_BLOCK_INLINE
    &&& forall|i: int| 0 <= i < blocks.len() ==> #[trigger] blocks[i].len() == cfg.block_size
}

/// A read cache that holds what the device holds, when it names a block of it.
pub open spec fn rcache_ok(cfg: LfsConfig, blocks: Seq<Seq<u8>>, c: LfsCache) -> bool {
    &&& c.buffer@.len() == cfg.cache_size
    &&& c.block < blocks.len() ==> {
        &&& c.size <= cfg.cache_size
        &&& c.off + c.size <= cfg.block_size
        &&& c.buffer@.subrange(0, c.size as int) == blocks[c.block as int].subrange(
            c.off as int,
            c.off + c.size,
        )
    }
}

/// A program cache: pending bytes at a prog-aligned offset, erased beyond them.
pub open spec fn pcache_ok(cfg: LfsConfig, blocks: Seq<Seq<u8>>, c: LfsCache) -> bool {
    &&& c.buffer@.len() == cfg.cache_size
    &&& c.size <= cfg.cache_size
    &&& c.block < blocks.len() ==> c.off % cfg.prog_size == 0 && c.off + c.size <= cfg.block_size
    &&& forall|k: int| c.size <= k < cfg.cache_size ==> #[trigger] c.buffer@[k] == 0xffu8
    &&& c.block == LFS_BLOCK_NULL ==> forall|k: int| 0 <= k < cfg.cache_size ==> #[trigger] c.buffer@[k] == 0xffu8
    &&& (c.block == LFS_BLOCK_NULL || c.block < blocks.len())
}

/// The device as it will be once the program cache is written out.
pub open spec fn overlay(blocks: Seq<Seq<u8>>, p: LfsCache) -> Seq<Seq<u8>> {
    if p.block < blocks.len() {
        blocks.update(
            p.block as int,
            splice(blocks[p.block as int], p.off as int, p.buffer@.subrange(0, p.size as int)),
        )
    } else {
        blocks
    }
}

/// The device as seen through an optional program cache.
pub open spec fn logical(blocks: Seq<Seq<u8>>, pcache: Option<&LfsCache>) -> Seq<Seq<u8>> {
    match pcache {
        Some(p) => overlay(blocks, *p),
        None => blocks,
    }
}

/// A byte of the device seen through the program cache.
pub proof fn lemma_overlay_index(
    cfg: LfsConfig,
    blocks: Seq<Seq<u8>>,
    p: LfsCache,
    b: int,
    k: int,
)
    requires
        device_ok(cfg, blocks),
        pcache_ok(cfg, blocks, p),
        0 <= b < blocks.len(),
        0 <= k < cfg.block_size,
    ensures
        overlay(blocks, p).len() == blocks.len(),
        overlay(blocks, p)[b].len() == cfg.block_size,
        (b == p.block && p.off <= k < p.off + p.size) ==> overlay(blocks, p)[b][k]
            == p.buffer@[k - p.off],
        !(b == p.block && p.off <= k < p.off + p.size) ==> overlay(blocks, p)[b][k]
            == blocks[b][k],
{
}

/// Appends `src[from..to]` to `dst`.
pub(crate) fn append_range(dst: &mut Vec<u8>, src: &Vec<u8>, from: usize, to: usize)
    requires
        from <= to <= src@.len(),
    ensures
        final(dst)@ == old(dst)@ + src@.subrange(from as int, to as int),
{
    let mut i = from;
    while i < to
        invariant
            from <= i <= to,
            to <= src@.len(),
            dst@ == old(dst)@ + src@.subrange(from as int, i as int),
        decreases to - i,
    {
        dst.push(src[i]);
        i = i + 1;
        proof {
            assert(dst@ =~= old(dst)@ + src@.subrange(from as int, i as int));
        }
    }
}

/// Drops a read cache, so that it names no block.
pub fn lfs_cache_drop(rcache: &mut LfsCache)
    ensures
        final(rcache).block == LFS_BLOCK_NULL,
        final(rcache).off == old(rcache).off,
        final(rcache).size == old(rcache).size,
        final(rcache).buffer@ == old(rcache).buffer@,
{
    rcache.block = LFS_BLOCK_NULL;
}

/// Fills a cache with 0xff and drops it.
pub fn lfs_cache_zero(pcache: &mut LfsCache)
    ensures
        final(pcache).block == LFS_BLOCK_NULL,
        final(pcache).buffer@.len() == old(pcache).buffer@.len(),
        forall|k: int| 0 <= k < final(pcache).buffer@.len() ==> #[trigger] final(pcache).buffer@[k] == 0xffu8,
        final(pcache).off == old(pcache).off,
        final(pcache).size == old(pcache).size,
{
    let n = pcache.buffer.len();
    let mut i: usize = 0;
    while i < n
        invariant
            i <= n,
            n == pcache.buffer@.len(),
            n == old(pcache).buffer@.len(),
            pcache.off == old(pcache).off,
            pcache.size == old(pcache).size,
            forall|k: int| 0 <= k < i ==> #[trigger] pcache.buffer@[k] == 0xffu8,
        decreases n - i,
    {
        pcache.buffer.set(i, 0xff);
        i = i + 1;
    }
    pcache.block = LFS_BLOCK_NULL;
}

/// Joining two adjacent ranges of a sequence gives the range spanning both.
pub proof fn lemma_subrange_concat(s: Seq<u8>, a: int, b: int, c: int)
    requires
        0 <= a <= b <= c <= s.len(),
    ensures
        s.subrange(a, b) + s.subrange(b, c) == s.subrange(a, c),
{
    assert(s.subrange(a, b) + s.subrange(b, c) =~= s.subrange(a, c));
}

/// Bytes the program cache does not hold are seen as the device holds them.
pub proof fn lemma_logical_outside(
    cfg: LfsConfig,
    blocks: Seq<Seq<u8>>,
    pcache: Option<&LfsCache>,
    block: int,
    lo: int,
    hi: int,
)
    requires
        device_ok(cfg, blocks),
        pcache matches Some(p) ==> pcache_ok(cfg, blocks, *p),
        0 <= block < blocks.len(),
        0 <= lo <= hi <= cfg.block_size,
        pcache matches Some(p) ==> (p.block != block || hi <= p.off || lo >= p.off + p.size),
    ensures
        logical(blocks, pcache)[block].subrange(lo, hi) == blocks[block].subrange(lo, hi),
{
    if let Some(p) = pcache {
        assert forall|k: int| lo <= k < hi implies #[trigger] overlay(blocks, *p)[block][k]
            == blocks[block][k] by {
            lemma_overlay_index(cfg, blocks, *p, block, k);
        }
        assert(overlay(blocks, *p)[block].subrange(lo, hi) =~= blocks[block].subrange(lo, hi));
    }
}

/// Bytes the program cache holds are seen as it holds them.
pub proof fn lemma_logical_inside(
    cfg: LfsConfig,
    blocks: Seq<Seq<u8>>,
    p: LfsCache,
    block: int,
    lo: int,
    hi: int,
)
    requires
        device_ok(cfg, blocks),
        pcache_ok(cfg, blocks, p),
        0 <= block < blocks.len(),
        p.block == block,
        p.off <= lo <= hi <= p.off + p.size,
    ensures
        overlay(blocks, p)[block].subrange(lo, hi) == p.buffer@.subrange(lo - p.off, hi - p.off),
{
    assert forall|k: int| lo <= k < hi implies #[trigger] overlay(blocks, p)[block][k]
        == p.buffer@[k - p.off] by {
        lemma_overlay_index(cfg, blocks, p, block, k);
    }
    assert(overlay(blocks, p)[block].subrange(lo, hi) =~= p.buffer@.subrange(
        lo - p.off,
        hi - p.off,
    ));
}

/// A range of bytes the read cache holds is what the device holds there.
pub proof fn lemma_rcache_range(cfg: LfsConfig, blocks: Seq<Seq<u8>>, c: LfsCache, lo: int, hi: int)
    requires
        device_ok(cfg, blocks),
        rcache_ok(cfg, blocks, c),
        c.block < blocks.len(),
        c.off <= lo <= hi <= c.off + c.size,
    ensures
        c.buffer@.subrange(lo - c.off, hi - c.off) == blocks[c.block as int].subrange(lo, hi),
{
    let a = c.buffer@.subrange(0, c.size as int);
    let b = blocks[c.block as int].subrange(c.off as int, c.off + c.size);
    assert(a == b);
    assert(blocks[c.block as int].len() == cfg.block_size);
    assert forall|k: int| 0 <= k < hi - lo implies #[trigger] c.buffer@.subrange(lo - c.off, hi - c.off)[k]
        == blocks[c.block as int].subrange(lo, hi)[k] by {
        assert(a[lo - c.off + k] == b[lo - c.off + k]);
        assert(a[lo - c.off + k] == c.buffer@[lo - c.off + k]);
        assert(b[lo - c.off + k] == blocks[c.block as int][lo + k]);
    }
    assert(c.buffer@.subrange(lo - c.off, hi - c.off) =~= blocks[c.block as int].subrange(lo, hi));
}

/// Loads the read cache with the read-aligned part of `block` around `off`,
/// `hint` bytes ahead, bounded by the block and the cache size.
fn lfs_rcache_load<D: BlockDevice>(
    cfg: &LfsConfig,
    bd: &D,
    rcache: &mut LfsCache,
    hint: LfsSize,
    block: LfsBlock,
    off: LfsOff,
) -> (r: Result<(), LfsError>)
    requires
        cache_geometry_ok(*cfg),
        device_ok(*cfg, bd.blocks()),
        block < bd.blocks().len(),
        off < cfg.block_size,
        hint > 0,
        old(rcache).buffer@.len() == cfg.cache_size,
    ensures
        rcache_ok(*cfg, bd.blocks(), *final(rcache)),
        r is Ok ==> {
            &&& final(rcache).block == block
            &&& final(rcache).off <= off < final(rcache).off + final(rcache).size
        },
        r is Err ==> final(rcache).block == LFS_BLOCK_NULL,
        r matches Err(e) ==> e != LfsError::NoEnt,
        bd.reads_ok() ==> r is Ok,
{
    let roff = lfs_aligndown(off, cfg.read_size);
    let end64: u64 = off as u64 + hint as u64 + (cfg.read_size - 1) as u64;
    let end_aligned: u64 = end64 - end64 % (cfg.read_size as u64);
    let end: u64 = if end_aligned < cfg.block_size as u64 {
        end_aligned
    } else {
        cfg.block_size as u64
    };
    proof {
        assert(end_aligned > off) by (nonlinear_arith)
            requires
                end64 == off + hint + cfg.read_size - 1,
                end_aligned == end64 - end64 % (cfg.read_size as u64),
                hint > 0,
                cfg.read_size > 0,
        ;
        assert(cfg.read_size <= cfg.cache_size) by (nonlinear_arith)
            requires
                cfg.cache_size % cfg.read_size == 0,
                cfg.cache_size > 0,
                cfg.read_size > 0,
        ;
    }
    let rsize: u32 = if end - (roff as u64) < cfg.cache_size as u64 {
        (end - roff as u64) as u32
    } else {
        cfg.cache_size
    };
    match bd.read(block, roff, rsize) {
        Ok(v) => {
            let mut i: u32 = 0;
            while i < rsize
                invariant
                    i <= rsize,
                    rsize <= cfg.cache_size,
                    v@.len() == rsize,
                    rcache.buffer@.len() == cfg.cache_size,
                    forall|k: int| 0 <= k < i ==> #[trigger] rcache.buffer@[k] == v@[k],
                decreases rsize - i,
            {
                rcache.buffer.set(i as usize, v[i as usize]);
                i = i + 1;
            }
            rcache.block = block;
            rcache.off = roff;
            rcache.size = rsize;
            proof {
                assert(rcache.buffer@.subrange(0, rsize as int) =~= v@);
            }
            Ok(())
        },
        Err(e) => {
            rcache.block = LFS_BLOCK_NULL;
            Err(e)
        },
    }
}

/// Reads `size` bytes at `off` in `block`, through the program cache (when
/// given) and the read cache, from the device where neither holds them.
/// When the device fails, the read cache is dropped.
#[verifier::rlimit(40)]
pub fn lfs_bd_read<D: BlockDevice>(
    cfg: &LfsConfig,
    bd: &D,
    block_count: LfsSize,
    pcache: Option<&LfsCache>,
    rcache: &mut LfsCache,
    hint: LfsSize,
    block: LfsBlock,
    off: LfsOff,
    size: LfsSize,
) -> (r: Result<Vec<u8>, LfsError>)
    requires
        cache_geometry_ok(*cfg),
        device_ok(*cfg, bd.blocks()),
        block_count <= bd.blocks().len(),
        rcache_ok(*cfg, bd.blocks(), *old(rcache)),
        pcache matches Some(p) ==> pcache_ok(*cfg, bd.blocks(), *p),
        hint > 0,
    ensures
        rcache_ok(*cfg, bd.blocks(), *final(rcache)),
        (off + size > cfg.block_size || block >= block_count) ==> r == Err::<Vec<u8>, LfsError>(
            LfsError::Corrupt,
        ) && *final(rcache) == *old(rcache),
        r matches Ok(v) ==> {
            &&& off + size <= cfg.block_size
            &&& block < block_count
            &&& v@ == logical(bd.blocks(), pcache)[block as int].subrange(off as int, off + size)
        },
        r matches Err(e) ==> e != LfsError::NoEnt,
        off + size <= cfg.block_size && block < block_count && bd.reads_ok() ==> r is Ok,
{
    if off > cfg.block_size || size > cfg.block_size - off || block >= block_count {
        return Err(LfsError::Corrupt);
    }
    let ghost blocks = bd.blocks();
    let ghost lb = logical(blocks, pcache)[block as int];
    proof {
        if let Some(p) = pcache {
            lemma_overlay_index(*cfg, blocks, *p, block as int, 0);
        }
    }
    let mut data: Vec<u8> = Vec::new();
    let mut cur = off;
    let mut rem = size;
    while rem > 0
        invariant
            cache_geometry_ok(*cfg),
            device_ok(*cfg, blocks),
            blocks == bd.blocks(),
            block < blocks.len(),
            block_count <= blocks.len(),
            block < block_count,
            pcache matches Some(p) ==> pcache_ok(*cfg, blocks, *p),
            lb == logical(blocks, pcache)[block as int],
            lb.len() == cfg.block_size,
            rcache_ok(*cfg, blocks, *rcache),
            hint > 0,
            off <= cur,
            cur + rem == off + size,
            off + size <= cfg.block_size,
            data@ == lb.subrange(off as int, cur as int),
        decreases rem,
    {
        let ghost before = data@;
        let mut diff = rem;
        if let Some(p) = pcache {
            if block == p.block && cur < p.off + p.size {
                if cur >= p.off {
                    let chunk = if p.size - (cur - p.off) < diff {
                        p.size - (cur - p.off)
                    } else {
                        diff
                    };
                    append_range(&mut data, &p.buffer, (cur - p.off) as usize, (cur - p.off + chunk) as usize);
                    proof {
                        lemma_logical_inside(*cfg, blocks, *p, block as int, cur as int, cur + chunk);
                        lemma_subrange_concat(lb, off as int, cur as int, cur + chunk);
                    }
                    cur = cur + chunk;
                    rem = rem - chunk;
                    continue;
                }
                diff = if p.off - cur < diff { p.off - cur } else { diff };
            }
        }
        let pdiff = diff;
        if block == rcache.block && cur < rcache.off + rcache.size {
            if cur >= rcache.off {
                let chunk = if rcache.size - (cur - rcache.off) < diff {
                    rcache.size - (cur - rcache.off)
                } else {
                    diff
                };
                append_range(&mut data, &rcache.buffer, (cur - rcache.off) as usize, (cur - rcache.off + chunk) as usize);
                proof {
                    lemma_logical_outside(*cfg, blocks, pcache, block as int, cur as int, cur + chunk);
                    lemma_rcache_range(*cfg, blocks, *rcache, cur as int, cur + chunk);
                    lemma_subrange_concat(lb, off as int, cur as int, cur + chunk);
                }
                cur = cur + chunk;
                rem = rem - chunk;
                continue;
            }
            diff = if rcache.off - cur < diff { rcache.off - cur } else { diff };
        }
        if rem >= hint && cur % cfg.read_size == 0 && rem >= cfg.read_size {
            let aligned = lfs_aligndown(diff, cfg.read_size);
            if aligned > 0 {
                let mut v = bd.read(block, cur, aligned)?;
                proof {
                    lemma_logical_outside(*cfg, blocks, pcache, block as int, cur as int, cur + aligned);
                    lemma_subrange_concat(lb, off as int, cur as int, cur + aligned);
                }
                data.append(&mut v);
                cur = cur + aligned;
                rem = rem - aligned;
                continue;
            }
        }
        lfs_rcache_load(cfg, bd, rcache, hint, block, cur)?;
        let chunk = if rcache.size - (cur - rcache.off) < pdiff {
            rcache.size - (cur - rcache.off)
        } else {
            pdiff
        };
        append_range(&mut data, &rcache.buffer, (cur - rcache.off) as usize, (cur - rcache.off + chunk) as usize);
        proof {
            lemma_logical_outside(*cfg, blocks, pcache, block as int, cur as int, cur + chunk);
            lemma_rcache_range(*cfg, blocks, *rcache, cur as int, cur + chunk);
            lemma_subrange_concat(lb, off as int, cur as int, cur + chunk);
        }
        cur = cur + chunk;
        rem = rem - chunk;
    }
    Ok(data)
}


/// Lexicographic comparison of two byte strings, up to the shorter length.
pub open spec fn byte_order(a: Seq<u8>, b: Seq<u8>) -> LfsCmp
    decreases a.len(),
{
    if a.len() == 0 || b.len() == 0 {
        LfsCmp::Eq
    } else if a[0] < b[0] {
        LfsCmp::Lt
    } else if a[0] > b[0] {
        LfsCmp::Gt
    } else {
        byte_order(a.drop_first(), b.drop_first())
    }
}

/// Equal strings compare equal; otherwise the first differing byte decides.
pub proof fn lemma_byte_order(a: Seq<u8>, b: Seq<u8>, m: int)
    requires
        a.len() == b.len(),
        0 <= m <= a.len(),
        a.subrange(0, m) == b.subrange(0, m),
    ensures
        m == a.len() ==> byte_order(a, b) == LfsCmp::Eq,
        m < a.len() && a[m] < b[m] ==> byte_order(a, b) == LfsCmp::Lt,
        m < a.len() && a[m] > b[m] ==> byte_order(a, b) == LfsCmp::Gt,
    decreases m,
{
    if m > 0 {
        assert(a[0] == a.subrange(0, m)[0]);
        assert(b[0] == b.subrange(0, m)[0]);
        assert(a.drop_first().subrange(0, m - 1) =~= a.subrange(0, m).drop_first());
        assert(b.drop_first().subrange(0, m - 1) =~= b.subrange(0, m).drop_first());
        lemma_byte_order(a.drop_first(), b.drop_first(), m - 1);
    }
}

/// Compares `data` against the bytes at `off` in `block`, as seen through the caches.
fn lfs_bd_compare<D: BlockDevice>(
    cfg: &LfsConfig,
    bd: &D,
    block_count: LfsSize,
    pcache: Option<&LfsCache>,
    rcache: &mut LfsCache,
    hint: LfsSize,
    block: LfsBlock,
    off: LfsOff,
    data: &[u8],
) -> (r: Result<LfsCmp, LfsError>)
    requires
        cache_geometry_ok(*cfg),
        device_ok(*cfg, bd.blocks()),
        block_count == bd.blocks().len(),
        rcache_ok(*cfg, bd.blocks(), *old(rcache)),
        pcache matches Some(p) ==> pcache_ok(*cfg, bd.blocks(), *p),
        hint >= data@.len(),
        data@.len() <= u32::MAX,
    ensures
        rcache_ok(*cfg, bd.blocks(), *final(rcache)),
        (data@.len() > 0 && (off + data@.len() > cfg.block_size || block >= block_count)) ==> r
            == Err::<LfsCmp, LfsError>(LfsError::Corrupt),
        data@.len() == 0 ==> r == Ok::<LfsCmp, LfsError>(LfsCmp::Eq),
        r matches Ok(c) ==> {
            &&& data@.len() > 0 ==> off + data@.len() <= cfg.block_size && block < block_count
            &&& c == byte_order(
                data@,
                logical(bd.blocks(), pcache)[block as int].subrange(off as int, off + data@.len()),
            )
        },
        off + data@.len() <= cfg.block_size && block < block_count && bd.reads_ok() ==> r is Ok,
{
    let size = data.len() as u32;
    let ghost lb = logical(bd.blocks(), pcache)[block as int];
    if size > 0 && (off > cfg.block_size || size > cfg.block_size - off || block >= block_count) {
        return Err(LfsError::Corrupt);
    }
    let ghost disk = if size > 0 {
        lb.subrange(off as int, off + size)
    } else {
        Seq::<u8>::empty()
    };
    proof {
        if size > 0 {
            if let Some(p) = pcache {
                lemma_overlay_index(*cfg, bd.blocks(), *p, block as int, 0);
            }
        }
    }
    let mut i: u32 = 0;
    while i < size
        invariant
            cache_geometry_ok(*cfg),
            device_ok(*cfg, bd.blocks()),
            block_count == bd.blocks().len(),
            rcache_ok(*cfg, bd.blocks(), *rcache),
            pcache matches Some(p) ==> pcache_ok(*cfg, bd.blocks(), *p),
            lb == logical(bd.blocks(), pcache)[block as int],
            size == data@.len(),
            hint >= size,
            i <= size,
            size > 0 ==> off + size <= cfg.block_size && block < block_count && lb.len() == cfg.block_size,
            disk.len() == size,
            size > 0 ==> disk == lb.subrange(off as int, off + size),
            data@.subrange(0, i as int) == disk.subrange(0, i as int),
        decreases size - i,
    {
        let diff: u32 = if size - i < 8 { size - i } else { 8 };
        let dat = lfs_bd_read(cfg, bd, block_count, pcache, rcache, hint - i, block, off + i, diff)?;
        let mut j: u32 = 0;
        while j < diff
            invariant
                j <= diff,
                i + diff <= size,
                rcache_ok(*cfg, bd.blocks(), *rcache),
                block < block_count,
                block_count == bd.blocks().len(),
                lb == logical(bd.blocks(), pcache)[block as int],
                off + size <= cfg.block_size,
                lb.len() == cfg.block_size,
                dat@.len() == diff,
                size == data@.len(),
                disk.len() == size,
                size > 0 ==> disk == lb.subrange(off as int, off + size),
                dat@ == lb.subrange(off + i, off + i + diff),
                data@.subrange(0, i + j) == disk.subrange(0, i + j),
            decreases diff - j,
        {
            let a = data[(i + j) as usize];
            let b = dat[j as usize];
            proof {
                assert(b == disk[i + j]);
            }
            if a != b {
                proof {
                    lemma_byte_order(data@, disk, i + j);
                }
                return Ok(if a < b { LfsCmp::Lt } else { LfsCmp::Gt });
            }
            proof {
                assert(data@.subrange(0, i + j + 1) =~= data@.subrange(0, i + j).push(a));
                assert(disk.subrange(0, i + j + 1) =~= disk.subrange(0, i + j).push(b));
            }
            j = j + 1;
        }
        i = i + diff;
    }
    proof {
        assert(data@.subrange(0, size as int) =~= data@);
        assert(disk.subrange(0, size as int) =~= disk);
        lemma_byte_order(data@, disk, size as int);
    }
    Ok(LfsCmp::Eq)
}

/// Whether `len` bytes at `off` in `block` lie within the device.
pub open spec fn range_in(cfg: LfsConfig, block_count: u32, block: u32, off: u32, len: nat) -> bool {
    off + len <= cfg.block_size && block < block_count
}

/// How `data` orders against the bytes at `off` in `block` seen through the program cache.
pub open spec fn order_against_disk(
    blocks: Seq<Seq<u8>>,
    pcache: Option<&LfsCache>,
    block: u32,
    off: u32,
    data: Seq<u8>,
) -> LfsCmp {
    byte_order(data, logical(blocks, pcache)[block as int].subrange(off as int, off + data.len()))
}

/// Compares `data` against the bytes at `off` in `block`, as seen through
/// the caches: `Lt` or `Gt` as the first differing byte of `data` is below
/// or above the stored one, `Eq` when all agree.
pub fn lfs_bd_cmp<D: BlockDevice>(
    cfg: &LfsConfig,
    bd: &D,
    block_count: LfsSize,
    pcache: Option<&LfsCache>,
    rcache: &mut LfsCache,
    hint: LfsSize,
    block: LfsBlock,
    off: LfsOff,
    data: &[u8],
) -> (r: Result<LfsCmp, LfsError>)
    requires
        cache_geometry_ok(*cfg),
        device_ok(*cfg, bd.blocks()),
        block_count == bd.blocks().len(),
        rcache_ok(*cfg, bd.blocks(), *old(rcache)),
        pcache matches Some(p) ==> pcache_ok(*cfg, bd.blocks(), *p),
        hint >= data@.len(),
        data@.len() <= u32::MAX,
    ensures
        rcache_ok(*cfg, bd.blocks(), *final(rcache)),
        (data@.len() > 0 && !range_in(*cfg, block_count, block, off, data@.len())) ==> r
            == Err::<LfsCmp, LfsError>(LfsError::Corrupt),
        data@.len() == 0 ==> r == Ok::<LfsCmp, LfsError>(LfsCmp::Eq),
        r matches Ok(c) ==> {
            &&& data@.len() > 0 ==> range_in(*cfg, block_count, block, off, data@.len())
            &&& c == order_against_disk(bd.blocks(), pcache, block, off, data@)
        },
        range_in(*cfg, block_count, block, off, data@.len()) && bd.reads_ok() ==> r is Ok,
{
    lfs_bd_compare(cfg, bd, block_count, pcache, rcache, hint, block, off, data)
}

/// Updates `crc` with the `size` bytes at `off` in `block`, as seen through the caches.
pub fn lfs_bd_crc<D: BlockDevice>(
    cfg: &LfsConfig,
    bd: &D,
    block_count: LfsSize,
    pcache: Option<&LfsCache>,
    rcache: &mut LfsCache,
    hint: LfsSize,
    block: LfsBlock,
    off: LfsOff,
    size: LfsSize,
    crc: &mut u32,
) -> (r: Result<(), LfsError>)
    requires
        cache_geometry_ok(*cfg),
        device_ok(*cfg, bd.blocks()),
        block_count == bd.blocks().len(),
        rcache_ok(*cfg, bd.blocks(), *old(rcache)),
        pcache matches Some(p) ==> pcache_ok(*cfg, bd.blocks(), *p),
        hint >= size,
    ensures
        rcache_ok(*cfg, bd.blocks(), *final(rcache)),
        (size > 0 && (off + size > cfg.block_size || block >= block_count)) ==> r == Err::<(), LfsError>(
            LfsError::Corrupt,
        ),
        size == 0 ==> r is Ok && *final(crc) == *old(crc),
        r is Ok && size > 0 ==> {
            &&& size > 0 ==> off + size <= cfg.block_size && block < block_count
            &&& *final(crc) == crc_seq(
                *old(crc),
                logical(bd.blocks(), pcache)[block as int].subrange(off as int, off + size),
            )
        },
        off + size <= cfg.block_size && block < block_count && bd.reads_ok() ==> r is Ok,
{
    let ghost lb = logical(bd.blocks(), pcache)[block as int];
    let ghost c0 = *crc;
    if size > 0 && (off > cfg.block_size || size > cfg.block_size - off || block >= block_count) {
        return Err(LfsError::Corrupt);
    }
    if size == 0 {
        return Ok(());
    }
    proof {
        if let Some(p) = pcache {
            lemma_overlay_index(*cfg, bd.blocks(), *p, block as int, 0);
        }
        assert(lb.subrange(off as int, off + 0) =~= Seq::<u8>::empty());
    }
    let mut i: u32 = 0;
    while i < size
        invariant
            cache_geometry_ok(*cfg),
            device_ok(*cfg, bd.blocks()),
            block_count == bd.blocks().len(),
            rcache_ok(*cfg, bd.blocks(), *rcache),
            pcache matches Some(p) ==> pcache_ok(*cfg, bd.blocks(), *p),
            lb == logical(bd.blocks(), pcache)[block as int],
            hint >= size,
            i <= size,
            off + size <= cfg.block_size,
            block < block_count,
            lb.len() == cfg.block_size,
            *crc == crc_seq(c0, lb.subrange(off as int, off + i)),
        decreases size - i,
    {
        let diff: u32 = if size - i < 8 { size - i } else { 8 };
        let dat = lfs_bd_read(cfg, bd, block_count, pcache, rcache, hint - i, block, off + i, diff)?;
        proof {
            if let Some(p) = pcache {
                lemma_overlay_index(*cfg, bd.blocks(), *p, block as int, 0);
            }
            lemma_crc_concat(c0, lb.subrange(off as int, off + i), dat@);
            assert(lb.subrange(off as int, off + i) + dat@ =~= lb.subrange(off as int, off + i + diff));
        }
        *crc = lfs_crc(*crc, dat.as_slice());
        i = i + diff;
    }
    Ok(())
}

/// `x` and `y` are multiples of `m` with `x > y`, so they are at least `m` apart.
pub proof fn lemma_aligned_gap(x: int, y: int, m: int)
    requires
        m > 0,
        x >= 0,
        y >= 0,
        x % m == 0,
        y % m == 0,
        x > y,
    ensures
        x >= y + m,
{
    vstd::arithmetic::div_mod::lemma_fundamental_div_mod(x, m);
    vstd::arithmetic::div_mod::lemma_fundamental_div_mod(y, m);
    assert(x / m > y / m) by (nonlinear_arith)
        requires
            x == m * (x / m),
            y == m * (y / m),
            x > y,
            m > 0,
    ;
    assert(x >= y + m) by (nonlinear_arith)
        requires
            x == m * (x / m),
            y == m * (y / m),
            x / m >= y / m + 1,
            m > 0,
    ;
}

/// Rounding down to a multiple of `m` gives a multiple of `m` less than `m` below.
pub proof fn lemma_round_down(d: int, m: int)
    requires
        m > 0,
        d >= 0,
    ensures
        (d - d % m) % m == 0,
        d - d % m <= d,
        d - (d - d % m) < m,
{
    vstd::arithmetic::div_mod::lemma_fundamental_div_mod(d, m);
    vstd::arithmetic::div_mod::lemma_mod_multiples_basic(d / m, m);
    vstd::arithmetic::mul::lemma_mul_is_commutative(d / m, m);
}

/// Rounding a multiple of `m` up to a multiple of `m` leaves it unchanged.
pub proof fn lemma_alignup_exact(x: int, m: int)
    requires
        m > 0,
        x >= 0,
        x % m == 0,
    ensures
        (x + m - 1) - (x + m - 1) % m == x,
{
    vstd::arithmetic::div_mod::lemma_fundamental_div_mod(x, m);
    vstd::arithmetic::div_mod::lemma_mod_multiples_vanish(x / m, m - 1, m);
    vstd::arithmetic::div_mod::lemma_small_mod((m - 1) as nat, m as nat);
}

/// `a` divides `c` when it divides `b` and `b` divides `c`.
pub proof fn lemma_divides_trans(a: int, b: int, c: int)
    requires
        a > 0,
        b > 0,
        c >= 0,
        b % a == 0,
        c % b == 0,
    ensures
        c % a == 0,
{
    vstd::arithmetic::div_mod::lemma_fundamental_div_mod(b, a);
    vstd::arithmetic::div_mod::lemma_fundamental_div_mod(c, b);
    let q1 = b / a;
    let q2 = c / b;
    assert(c == a * (q1 * q2)) by (nonlinear_arith)
        requires
            b == a * q1,
            c == b * q2,
    ;
    vstd::arithmetic::div_mod::lemma_mod_multiples_basic(q1 * q2, a);
    vstd::arithmetic::mul::lemma_mul_is_commutative(q1 * q2, a);
}

/// The device after the pending bytes of a program cache are written out,
/// padded with the cache's erased tail to a whole prog unit.
pub open spec fn flushed(blocks: Seq<Seq<u8>>, p: LfsCache, prog_size: u32) -> Seq<Seq<u8>> {
    if p.block < blocks.len() {
        let diff = (p.size + prog_size - 1) - (p.size + prog_size - 1) % (prog_size as int);
        blocks.update(
            p.block as int,
            splice(blocks[p.block as int], p.off as int, p.buffer@.subrange(0, diff)),
        )
    } else {
        blocks
    }
}

/// Where a write-out of the program cache ends: its pending bytes padded
/// to a whole prog unit.
pub open spec fn flush_end(p: LfsCache, prog_size: u32) -> int {
    p.off + (p.size + prog_size - 1) - (p.size + prog_size - 1) % (prog_size as int)
}

/// Writing out the program cache keeps every byte it held pending, and
/// the device's bytes before them.
pub proof fn lemma_flushed_keeps(cfg: LfsConfig, blocks: Seq<Seq<u8>>, p: LfsCache, k: int)
    requires
        cache_geometry_ok(cfg),
        device_ok(cfg, blocks),
        pcache_ok(cfg, blocks, p),
        p.block < blocks.len(),
        0 <= k < p.off + p.size,
    ensures
        flushed(blocks, p, cfg.prog_size)[p.block as int][k] == overlay(blocks, p)[p.block as int][k],
{
    let d = (p.size + cfg.prog_size - 1) as int;
    lemma_round_down(d, cfg.prog_size as int);
    assert(cfg.prog_size <= cfg.cache_size) by (nonlinear_arith)
        requires
            cfg.cache_size % cfg.prog_size == 0,
            cfg.cache_size > 0,
            cfg.prog_size > 0,
    ;
    if d - d % (cfg.prog_size as int) > cfg.cache_size {
        lemma_aligned_gap(d - d % (cfg.prog_size as int), cfg.cache_size as int, cfg.prog_size as int);
        lemma_divides_trans(cfg.prog_size as int, cfg.cache_size as int, cfg.cache_size as int);
    }
    lemma_overlay_index(cfg, blocks, p, p.block as int, k);
}

/// Writes out the pending bytes of the program cache, padded to a whole
/// prog unit, optionally reads them back to check them, and empties the
/// cache. A cache of an inline file is left as it is.
pub fn lfs_bd_flush<D: BlockDevice>(
    cfg: &LfsConfig,
    bd: &mut D,
    block_count: LfsSize,
    pcache: &mut LfsCache,
    rcache: &mut LfsCache,
    validate: bool,
) -> (r: Result<(), LfsError>)
    requires
        cache_geometry_ok(*cfg),
        device_ok(*cfg, old(bd).blocks()),
        block_count == old(bd).blocks().len(),
        old(pcache).block != LFS_BLOCK_INLINE ==> pcache_ok(*cfg, old(bd).blocks(), *old(pcache)),
        old(rcache).buffer@.len() == cfg.cache_size,
    ensures
        device_ok(*cfg, final(bd).blocks()),
        final(bd).blocks().len() == old(bd).blocks().len(),
        forall|i: int|
            0 <= i < old(bd).blocks().len() && i != old(pcache).block ==> #[trigger] final(bd).blocks()[i]
                == old(bd).blocks()[i],
        final(rcache).buffer@.len() == cfg.cache_size,
        final(pcache).buffer@.len() == old(pcache).buffer@.len(),
        old(pcache).block != LFS_BLOCK_INLINE ==> final(pcache).size <= cfg.cache_size,
        !validate ==> *final(rcache) == *old(rcache),
        (old(pcache).block == LFS_BLOCK_NULL || old(pcache).block == LFS_BLOCK_INLINE) ==> {
            &&& r is Ok
            &&& final(bd).blocks() == old(bd).blocks()
            &&& *final(pcache) == *old(pcache)
            &&& *final(rcache) == *old(rcache)
        },
        r is Err ==> {
            &&& *final(pcache) == *old(pcache)
            &&& old(pcache).block < old(bd).blocks().len()
            &&& forall|k: int|
                0 <= k < cfg.block_size && !(old(pcache).off + old(pcache).size <= k < flush_end(*old(pcache), cfg.prog_size))
                    ==> #[trigger] overlay(final(bd).blocks(), *final(pcache))[old(pcache).block as int][k]
                    == overlay(old(bd).blocks(), *old(pcache))[old(pcache).block as int][k]
        },
        r is Ok && old(pcache).block != LFS_BLOCK_INLINE ==> {
            &&& final(pcache).block == LFS_BLOCK_NULL
            &&& pcache_ok(*cfg, final(bd).blocks(), *final(pcache))
            &&& final(bd).blocks() == flushed(old(bd).blocks(), *old(pcache), cfg.prog_size)
            &&& (validate && old(pcache).block != LFS_BLOCK_NULL) ==> rcache_ok(
                *cfg,
                final(bd).blocks(),
                *final(rcache),
            )
            &&& !validate ==> *final(rcache) == *old(rcache)
        },
        final(bd).reads_ok() == old(bd).reads_ok(),
        final(bd).writes_ok() == old(bd).writes_ok(),
        old(bd).reads_ok() && old(bd).writes_ok() ==> r is Ok,
{
    if pcache.block != LFS_BLOCK_NULL && pcache.block != LFS_BLOCK_INLINE {
        let ghost b0 = bd.blocks();
        proof {
            assert(cfg.prog_size <= cfg.cache_size) by (nonlinear_arith)
                requires
                    cfg.cache_size % cfg.prog_size == 0,
                    cfg.cache_size > 0,
                    cfg.prog_size > 0,
            ;
        }
        let d64: u64 = pcache.size as u64 + (cfg.prog_size - 1) as u64;
        let diff64: u64 = d64 - d64 % (cfg.prog_size as u64);
        proof {
            lemma_round_down(d64 as int, cfg.prog_size as int);
            if diff64 > cfg.cache_size {
                lemma_aligned_gap(diff64 as int, cfg.cache_size as int, cfg.prog_size as int);
            }
        }
        let diff = diff64 as u32;
        proof {
            assert(diff == (pcache.size + cfg.prog_size - 1) - (pcache.size + cfg.prog_size - 1) % (cfg.prog_size as int));
            assert(diff % cfg.prog_size == 0);
            assert(diff >= pcache.size);
            lemma_divides_trans(cfg.prog_size as int, cfg.cache_size as int, cfg.block_size as int);
            if diff > cfg.cache_size {
                lemma_aligned_gap(diff as int, cfg.cache_size as int, cfg.prog_size as int);
            }
            if pcache.off + diff > cfg.block_size {
                vstd::arithmetic::div_mod::lemma_mod_adds(pcache.off as int, diff as int, cfg.prog_size as int);
                lemma_aligned_gap(pcache.off + diff, cfg.block_size as int, cfg.prog_size as int);
            }
            assert(b0[pcache.block as int].len() == cfg.block_size);
        }
        let pblock = pcache.block;
        let poff = pcache.off;
        let pr = bd.prog(pblock, poff, vstd::slice::slice_subrange(pcache.buffer.as_slice(), 0, diff as usize));
        proof {
            assert forall|k: int|
                0 <= k < cfg.block_size && !(pcache.off + pcache.size <= k < flush_end(*pcache, cfg.prog_size)) implies
                #[trigger] overlay(bd.blocks(), *pcache)[pblock as int][k] == overlay(b0, *pcache)[pblock as int][k] by {
                lemma_overlay_index(*cfg, bd.blocks(), *pcache, pblock as int, k);
                lemma_overlay_index(*cfg, b0, *pcache, pblock as int, k);
            }
        }
        pr?;
        if validate {
            lfs_cache_drop(rcache);
            let res = lfs_bd_compare(
                cfg,
                bd,
                block_count,
                None,
                rcache,
                diff,
                pblock,
                poff,
                vstd::slice::slice_subrange(pcache.buffer.as_slice(), 0, diff as usize),
            )?;
            proof {
                if b0.len() > 0 && old(bd).reads_ok() && old(bd).writes_ok() {
                    let d = pcache.buffer@.subrange(0, diff as int);
                    assert(bd.blocks()[pblock as int].subrange(poff as int, poff + diff) =~= d);
                    lemma_byte_order(d, d, diff as int);
                }
            }
            if res != LfsCmp::Eq {
                return Err(LfsError::Corrupt);
            }
        }
        lfs_cache_zero(pcache);
        proof {
            assert forall|i: int| 0 <= i < bd.blocks().len() implies #[trigger] bd.blocks()[i].len()
                == cfg.block_size by {
                assert(b0[i].len() == cfg.block_size);
            }
            assert(bd.blocks() =~= flushed(b0, *old(pcache), cfg.prog_size));
        }
    }
    Ok(())
}


/// A block after programming `d` at `off`: the written bytes hold `d`,
/// bytes from `gstart` up to `off` read as erased, the rest is unchanged.
pub open spec fn prog_expect(b: Seq<u8>, gstart: int, off: int, d: Seq<u8>) -> Seq<u8> {
    Seq::new(
        b.len(),
        |k: int|
            if off <= k < off + d.len() {
                d[k - off]
            } else if d.len() > 0 && gstart <= k < off {
                0xffu8
            } else {
                b[k]
            },
    )
}

/// Where the bytes left erased by a program at `off` start: the end of the
/// pending bytes when the cache window already covers `off`, else the
/// prog-aligned start of a new window.
pub open spec fn prog_gap_start(p: LfsCache, block: u32, off: u32, prog_size: u32) -> int {
    if p.block == block && p.off <= off {
        if off < p.off + p.size {
            off as int
        } else {
            p.off + p.size
        }
    } else {
        off as int - (off as int) % (prog_size as int)
    }
}

/// The effect on the device seen through the cache of copying `chunk` into
/// the cache window at `cur`.
pub proof fn lemma_prog_copy(
    cfg: LfsConfig,
    blocks: Seq<Seq<u8>>,
    p_old: LfsCache,
    p_new: LfsCache,
    cur: int,
    chunk: Seq<u8>,
    k: int,
)
    requires
        device_ok(cfg, blocks),
        pcache_ok(cfg, blocks, p_old),
        p_old.block < blocks.len(),
        p_old.off <= cur,
        cur + chunk.len() <= p_old.off + cfg.cache_size,
        cur + chunk.len() <= cfg.block_size,
        p_new.block == p_old.block,
        p_new.off == p_old.off,
        p_new.size == (if p_old.size > cur + chunk.len() - p_old.off {
            p_old.size as int
        } else {
            cur + chunk.len() - p_old.off
        }),
        p_new.buffer@.len() == p_old.buffer@.len(),
        forall|i: int|
            0 <= i < p_old.buffer@.len() ==> #[trigger] p_new.buffer@[i] == (if cur - p_old.off <= i
                < cur - p_old.off + chunk.len() {
                chunk[i - (cur - p_old.off)]
            } else {
                p_old.buffer@[i]
            }),
        0 <= k < cfg.block_size,
    ensures
        overlay(blocks, p_new).len() == blocks.len(),
        overlay(blocks, p_new)[p_old.block as int].len() == cfg.block_size,
        overlay(blocks, p_new)[p_old.block as int][k] == (if cur <= k < cur + chunk.len() {
            chunk[k - cur]
        } else if p_old.off + p_old.size <= k < cur {
            0xffu8
        } else {
            overlay(blocks, p_old)[p_old.block as int][k]
        }),
        forall|b: int|
            0 <= b < blocks.len() && b != p_old.block ==> #[trigger] overlay(blocks, p_new)[b]
                == blocks[b],
{
    lemma_overlay_index(cfg, blocks, p_old, p_old.block as int, k);
    if p_old.off <= k < p_old.off + p_new.size {
        assert(overlay(blocks, p_new)[p_old.block as int][k] == p_new.buffer@[k - p_new.off]);
    } else {
        assert(overlay(blocks, p_new)[p_old.block as int][k] == blocks[p_old.block as int][k]);
    }
}

/// A program at `off` of `block` may go through the program cache: it is
/// empty, or its window over that block covers `off`.
pub open spec fn prog_window(cfg: LfsConfig, p: LfsCache, block: u32, off: u32) -> bool {
    p.block == LFS_BLOCK_NULL || (p.block == block && p.off <= off < p.off + cfg.cache_size)
}

/// The program cache ends exactly at `off` of `block`, with room left, or
/// is empty with `off` on a prog boundary: a program at `off` then leaves
/// every byte before it as it was.
pub open spec fn prog_contiguous(cfg: LfsConfig, p: LfsCache, block: u32, off: u32) -> bool {
    ||| (p.block == block && p.off + p.size == off && off < p.off + cfg.cache_size)
    ||| (p.block == LFS_BLOCK_NULL && off % cfg.prog_size == 0)
}

/// The program cache ends exactly at `off` of `block`, with room left,
/// and its window starts on a cache boundary; or it is empty with `off` on
/// a cache boundary. Programs that go on from there fill whole windows, so
/// one that reaches the end of the block leaves the cache empty.
pub open spec fn write_window(cfg: LfsConfig, p: LfsCache, block: u32, off: u32) -> bool {
    ||| (p.block == block && p.off % cfg.cache_size == 0 && p.off + p.size == off && off < p.off
        + cfg.cache_size)
    ||| (p.block == LFS_BLOCK_NULL && off % cfg.cache_size == 0)
}

/// An aligned window is a contiguous one.
pub proof fn lemma_window_contiguous(cfg: LfsConfig, p: LfsCache, block: u32, off: u32)
    requires
        write_window(cfg, p, block, off),
        cache_geometry_ok(cfg),
    ensures
        prog_contiguous(cfg, p, block, off),
{
    if p.block == LFS_BLOCK_NULL && off % cfg.cache_size == 0 {
        lemma_divides_trans(cfg.prog_size as int, cfg.cache_size as int, off as int);
    }
}

/// A program at the place where a contiguous cache ends leaves no gap.
pub proof fn lemma_contiguous_gap(cfg: LfsConfig, p: LfsCache, block: u32, off: u32)
    requires
        prog_contiguous(cfg, p, block, off),
        block != LFS_BLOCK_NULL,
        cfg.prog_size > 0,
    ensures
        prog_gap_start(p, block, off, cfg.prog_size) == off,
{
}

/// Writing `x` and then `y` right after it is writing `x + y`.
pub proof fn lemma_splice_concat(b: Seq<u8>, off: int, x: Seq<u8>, y: Seq<u8>)
    requires
        0 <= off,
        off + x.len() + y.len() <= b.len(),
    ensures
        splice(splice(b, off, x), off + x.len(), y) == splice(b, off, x + y),
        splice(b, off, x).len() == b.len(),
{
    assert(splice(splice(b, off, x), off + x.len(), y) =~= splice(b, off, x + y));
}

/// A program that leaves no gap writes its bytes over the block and keeps
/// the rest.
pub proof fn lemma_prog_expect_splice(b: Seq<u8>, off: int, d: Seq<u8>)
    requires
        0 <= off,
        off + d.len() <= b.len(),
    ensures
        prog_expect(b, off, off, d) == splice(b, off, d),
{
    assert(prog_expect(b, off, off, d) =~= splice(b, off, d));
}

/// A program of `len` bytes at `off` of an inline file fits the window of
/// the cache that holds it, or of a fresh one.
pub open spec fn inline_prog_ok(cfg: LfsConfig, p: LfsCache, off: u32, len: nat) -> bool {
    &&& p.buffer@.len() == cfg.cache_size
    &&& p.size <= cfg.cache_size
    &&& len > 0 ==> {
        ||| (p.block == LFS_BLOCK_INLINE && p.off <= off && off + len <= p.off + cfg.cache_size)
        ||| (p.block == LFS_BLOCK_NULL && off + len <= off - off % cfg.prog_size + cfg.cache_size)
    }
}

/// The cache of an inline file after `d` is written at `off`: named for the
/// inline file, its window where it was or prog-aligned below `off`, `d` in
/// it, and its size grown to cover `d`.
pub open spec fn inline_progged(p0: LfsCache, p1: LfsCache, prog_size: u32, off: u32, d: Seq<u8>) -> bool {
    if d.len() == 0 {
        p1 == p0
    } else {
        let base: int = if p0.block == LFS_BLOCK_INLINE { p0.off as int } else { off - off % prog_size };
        let size0: int = if p0.block == LFS_BLOCK_INLINE { p0.size as int } else { 0 };
        let end: int = off + d.len() - base;
        &&& p1.block == LFS_BLOCK_INLINE
        &&& p1.off == base
        &&& p1.size == (if size0 > end { size0 } else { end })
        &&& p1.buffer@.len() == p0.buffer@.len()
        &&& forall|k: int|
            0 <= k < p1.buffer@.len() ==> #[trigger] p1.buffer@[k] == (if off - base <= k < off - base + d.len() {
                d[k - (off - base)]
            } else {
                p0.buffer@[k]
            })
    }
}

/// Writes `data` at `off` of an inline file into its cache, which never
/// reaches the device.
fn prog_inline(cfg: &LfsConfig, pcache: &mut LfsCache, off: LfsOff, data: &[u8])
    requires
        cache_geometry_ok(*cfg),
        inline_prog_ok(*cfg, *old(pcache), off, data@.len()),
        off + data@.len() <= cfg.block_size,
    ensures
        inline_progged(*old(pcache), *final(pcache), cfg.prog_size, off, data@),
        final(pcache).size <= cfg.cache_size,
{
    let len = data.len();
    if len == 0 {
        return;
    }
    if pcache.block != LFS_BLOCK_INLINE {
        pcache.block = LFS_BLOCK_INLINE;
        pcache.off = lfs_aligndown(off, cfg.prog_size);
        pcache.size = 0;
    }
    let base = (off - pcache.off) as usize;
    let ghost pw = *pcache;
    let mut j: usize = 0;
    while j < len
        invariant
            j <= len,
            len == data@.len(),
            base + len <= cfg.cache_size,
            pcache.buffer@.len() == cfg.cache_size,
            pcache.block == pw.block,
            pcache.off == pw.off,
            pcache.size == pw.size,
            pw.buffer@.len() == cfg.cache_size,
            forall|i: int| 0 <= i < cfg.cache_size ==> #[trigger] pcache.buffer@[i] == (if base <= i < base + j {
                data@[i - base]
            } else {
                pw.buffer@[i]
            }),
        decreases len - j,
    {
        pcache.buffer.set(base + j, data[j]);
        j = j + 1;
    }
    let end = off + len as u32 - pcache.off;
    if end > pcache.size {
        pcache.size = end;
    }
}

/// Programs `data` at `off` in `block` through the program cache, writing
/// the cache out to the device each time it fills, and checking what was
/// written when `validate` is set.
#[verifier::rlimit(100)]
pub fn lfs_bd_prog<D: BlockDevice>(
    cfg: &LfsConfig,
    bd: &mut D,
    block_count: LfsSize,
    pcache: &mut LfsCache,
    rcache: &mut LfsCache,
    validate: bool,
    block: LfsBlock,
    off: LfsOff,
    data: &[u8],
) -> (r: Result<(), LfsError>)
    requires
        cache_geometry_ok(*cfg),
        device_ok(*cfg, old(bd).blocks()),
        block_count == old(bd).blocks().len(),
        block < block_count || block == LFS_BLOCK_INLINE,
        block < block_count ==> pcache_ok(*cfg, old(bd).blocks(), *old(pcache)),
        block == LFS_BLOCK_INLINE ==> inline_prog_ok(*cfg, *old(pcache), off, data@.len()),
        old(rcache).buffer@.len() == cfg.cache_size,
        off + data@.len() <= cfg.block_size,
        block < block_count && data@.len() > 0 ==> (old(pcache).block == LFS_BLOCK_NULL || (old(pcache).block
            == block && old(pcache).off <= off < old(pcache).off + cfg.cache_size)),
    ensures
        device_ok(*cfg, final(bd).blocks()),
        final(bd).blocks().len() == old(bd).blocks().len(),
        forall|i: int|
            0 <= i < old(bd).blocks().len() && i != block ==> #[trigger] final(bd).blocks()[i]
                == old(bd).blocks()[i],
        final(rcache).buffer@.len() == cfg.cache_size,
        final(pcache).buffer@.len() == old(pcache).buffer@.len(),
        final(pcache).size <= cfg.cache_size,
        !validate ==> *final(rcache) == *old(rcache),
        data@.len() == 0 ==> {
            &&& r is Ok
            &&& *final(pcache) == *old(pcache)
            &&& final(bd).blocks() == old(bd).blocks()
        },
        r is Err ==> final(pcache).block == block && pcache_ok(*cfg, final(bd).blocks(), *final(pcache)),
        r is Err ==> block < block_count && forall|k: int|
            0 <= k < cfg.block_size && k < prog_gap_start(*old(pcache), block, off, cfg.prog_size)
                ==> #[trigger] overlay(final(bd).blocks(), *final(pcache))[block as int][k] == overlay(
                old(bd).blocks(),
                *old(pcache),
            )[block as int][k],
        block == LFS_BLOCK_INLINE ==> {
            &&& r is Ok
            &&& final(bd).blocks() == old(bd).blocks()
            &&& *final(rcache) == *old(rcache)
            &&& inline_progged(*old(pcache), *final(pcache), cfg.prog_size, off, data@)
        },
        r is Ok && block < block_count ==> {
            &&& pcache_ok(*cfg, final(bd).blocks(), *final(pcache))
            &&& data@.len() > 0 ==> (final(pcache).block == LFS_BLOCK_NULL || final(pcache).block == block)
            &&& data@.len() > 0 && final(pcache).block == block ==> final(pcache).off < off
                + data@.len() < final(pcache).off + cfg.cache_size
            &&& data@.len() > 0 && prog_contiguous(*cfg, *old(pcache), block, off) ==> prog_contiguous(
                *cfg,
                *final(pcache),
                block,
                (off + data@.len()) as u32,
            )
            &&& data@.len() > 0 && write_window(*cfg, *old(pcache), block, off) ==> write_window(
                *cfg,
                *final(pcache),
                block,
                (off + data@.len()) as u32,
            )
            &&& overlay(final(bd).blocks(), *final(pcache)) == overlay(
                old(bd).blocks(),
                *old(pcache),
            ).update(
                block as int,
                prog_expect(
                    overlay(old(bd).blocks(), *old(pcache))[block as int],
                    prog_gap_start(*old(pcache), block, off, cfg.prog_size),
                    off as int,
                    data@,
                ),
            )
            &&& validate ==> (rcache_ok(*cfg, final(bd).blocks(), *final(rcache)) || (*final(rcache)
                == *old(rcache) && final(bd).blocks() == old(bd).blocks()))
        },
        final(bd).reads_ok() == old(bd).reads_ok(),
        final(bd).writes_ok() == old(bd).writes_ok(),
        old(bd).reads_ok() && old(bd).writes_ok() ==> r is Ok,
{
    if block == LFS_BLOCK_INLINE {
        prog_inline(cfg, pcache, off, data);
        return Ok(());
    }
    let ghost b0 = bd.blocks();
    let ghost p0 = *pcache;
    let ghost l0 = overlay(b0, p0);
    let ghost g = prog_gap_start(p0, block, off, cfg.prog_size);
    let ghost mut flushed_any = false;
    proof {
        lemma_overlay_index(*cfg, b0, p0, block as int, 0);
        assert(prog_expect(l0[block as int], g, off as int, data@.subrange(0, 0)) =~= l0[block as int]);
        assert(l0.update(block as int, prog_expect(l0[block as int], g, off as int, data@.subrange(0, 0)))
            =~= l0);
        assert(cfg.prog_size <= cfg.cache_size) by (nonlinear_arith)
            requires
                cfg.cache_size % cfg.prog_size == 0,
                cfg.cache_size > 0,
                cfg.prog_size > 0,
        ;
        lemma_divides_trans(cfg.prog_size as int, cfg.cache_size as int, cfg.block_size as int);
    }
    let len = data.len();
    let mut cur = off;
    let mut done: usize = 0;
    while done < len
        invariant
            cache_geometry_ok(*cfg),
            cfg.block_size % cfg.prog_size == 0,
            cfg.prog_size <= cfg.cache_size,
            device_ok(*cfg, bd.blocks()),
            device_ok(*cfg, b0),
            pcache_ok(*cfg, b0, p0),
            b0 == old(bd).blocks(),
            p0 == *old(pcache),
            bd.blocks().len() == b0.len(),
            block_count == b0.len(),
            block < block_count,
            forall|i: int| 0 <= i < b0.len() && i != block ==> #[trigger] bd.blocks()[i] == b0[i],
            pcache_ok(*cfg, bd.blocks(), *pcache),
            rcache.buffer@.len() == cfg.cache_size,
            len == data@.len(),
            off + len <= cfg.block_size,
            done <= len,
            cur == off + done,
            l0 == overlay(b0, p0),
            l0[block as int].len() == cfg.block_size,
            g == prog_gap_start(p0, block, off, cfg.prog_size),
            done == 0 ==> *pcache == p0 && bd.blocks() == b0,
            done > 0 && done < len ==> pcache.block == LFS_BLOCK_NULL && cur % cfg.prog_size == 0,
            done > 0 ==> (pcache.block == LFS_BLOCK_NULL || pcache.block == block),
            done > 0 && pcache.block == block ==> pcache.off < cur < pcache.off + cfg.cache_size,
            len > 0 && prog_contiguous(*cfg, p0, block, off) ==> prog_contiguous(*cfg, *pcache, block, cur),
            len > 0 && write_window(*cfg, p0, block, off) ==> write_window(*cfg, *pcache, block, cur),
            len > 0 ==> (p0.block == LFS_BLOCK_NULL || (p0.block == block && p0.off <= off < p0.off
                + cfg.cache_size)),
            overlay(bd.blocks(), *pcache) == (if done == 0 {
                l0
            } else {
                l0.update(
                    block as int,
                    prog_expect(l0[block as int], g, off as int, data@.subrange(0, done as int)),
                )
            }),
            !flushed_any ==> *rcache == *old(rcache) && bd.blocks() == b0,
            !validate ==> *rcache == *old(rcache),
            validate && flushed_any ==> rcache_ok(*cfg, bd.blocks(), *rcache),
            bd.reads_ok() == old(bd).reads_ok(),
            bd.writes_ok() == old(bd).writes_ok(),
        decreases len - done,
    {
        let ghost bcur = bd.blocks();
        if !(pcache.block == block && pcache.off <= cur && cur - pcache.off < cfg.cache_size) {
            let noff = lfs_aligndown(cur, cfg.prog_size);
            proof {
                if len > 0 && write_window(*cfg, p0, block, off) {
                    assert(pcache.block == LFS_BLOCK_NULL && cur % cfg.cache_size == 0);
                    lemma_divides_trans(cfg.prog_size as int, cfg.cache_size as int, cur as int);
                    assert(noff == cur);
                }
            }
            pcache.block = block;
            pcache.off = noff;
            pcache.size = 0;
            proof {
                assert(overlay(bcur, *pcache) =~= bcur) by {
                    assert(pcache.buffer@.subrange(0, 0) =~= Seq::<u8>::empty());
                    assert(splice(bcur[block as int], noff as int, Seq::<u8>::empty()) =~= bcur[block as int]);
                }
            }
        }
        let ghost pw = *pcache;
        proof {
            lemma_overlay_index(*cfg, bcur, pw, block as int, 0);
        }
        let room = cfg.cache_size - (cur - pcache.off);
        let diff: u32 = if ((len - done) as u64) < room as u64 { (len - done) as u32 } else { room };
        let base = (cur - pcache.off) as usize;
        let mut j: u32 = 0;
        while j < diff
            invariant
                j <= diff,
                base + diff <= cfg.cache_size,
                done + diff <= len,
                len == data@.len(),
                pcache.buffer@.len() == cfg.cache_size,
                pcache.block == pw.block,
                pcache.off == pw.off,
                pcache.size == pw.size,
                pw.buffer@.len() == cfg.cache_size,
                forall|i: int| 0 <= i < cfg.cache_size ==> #[trigger] pcache.buffer@[i] == (if base <= i < base + j {
                    data@[done + i - base]
                } else {
                    pw.buffer@[i]
                }),
            decreases diff - j,
        {
            pcache.buffer.set(base + j as usize, data[done + j as usize]);
            j = j + 1;
        }
        let end = cur + diff - pcache.off;
        if end > pcache.size {
            pcache.size = end;
        }
        let ghost pn = *pcache;
        proof {
            let chunk = data@.subrange(done as int, done + diff);
            assert forall|i: int| 0 <= i < pw.buffer@.len() implies #[trigger] pn.buffer@[i] == (if cur
                - pw.off <= i < cur - pw.off + chunk.len() {
                chunk[i - (cur - pw.off)]
            } else {
                pw.buffer@[i]
            }) by {}
            assert forall|k: int| 0 <= k < cfg.block_size implies #[trigger] overlay(bcur, pn)[block as int][k]
                == prog_expect(l0[block as int], g, off as int, data@.subrange(0, done + diff))[k] by {
                lemma_prog_copy(*cfg, bcur, pw, pn, cur as int, chunk, k);
                lemma_overlay_index(*cfg, b0, p0, block as int, k);
            }
            lemma_prog_copy(*cfg, bcur, pw, pn, cur as int, chunk, 0);
            assert forall|b: int| 0 <= b < b0.len() && b != block implies #[trigger] overlay(bcur, pn)[b]
                == l0[b] by {
                assert(bcur[b] == b0[b]);
            }
            assert(overlay(bcur, pn).len() == l0.len());
            assert(overlay(bcur, pn)[block as int] =~= prog_expect(l0[block as int], g, off as int, data@.subrange(0, done + diff)));
            assert(overlay(bcur, pn) =~= l0.update(
                block as int,
                prog_expect(l0[block as int], g, off as int, data@.subrange(0, done + diff)),
            ));
        }
        proof {
            if diff == room {
                vstd::arithmetic::div_mod::lemma_mod_adds(pw.off as int, cfg.cache_size as int, cfg.prog_size as int);
            }
            if len > 0 && write_window(*cfg, p0, block, off) {
                assert(pw.off % cfg.cache_size == 0);
                assert(pw.off + pw.size == cur);
                assert(pcache.off + pcache.size == cur + diff);
                if pcache.size == cfg.cache_size {
                    vstd::arithmetic::div_mod::lemma_mod_adds(pw.off as int, cfg.cache_size as int, cfg.cache_size as int);
                    vstd::arithmetic::div_mod::lemma_mod_self_0(cfg.cache_size as int);
                }
            }
        }
        cur = cur + diff;
        done = done + diff as usize;
        if pcache.size == cfg.cache_size {
            assert(pcache.block == block);
            let ghost bpre = bd.blocks();
            let res = lfs_bd_flush(cfg, bd, block_count, pcache, rcache, validate);
            proof {
                assert forall|i: int| 0 <= i < b0.len() && i != block implies #[trigger] bd.blocks()[i]
                    == b0[i] by {
                    assert(bpre[i] == b0[i]);
                }
            }
            if let Err(e) = res {
                proof {
                    assert(flush_end(pn, cfg.prog_size) == pn.off + pn.size) by {
                        lemma_alignup_exact(cfg.cache_size as int, cfg.prog_size as int);
                    }
                    assert forall|k: int|
                        0 <= k < cfg.block_size && k < prog_gap_start(p0, block, off, cfg.prog_size) implies
                        #[trigger] overlay(bd.blocks(), *pcache)[block as int][k] == l0[block as int][k] by {
                        assert(overlay(bd.blocks(), *pcache)[block as int][k] == overlay(bpre, pn)[block as int][k]);
                    }
                }
                return Err(e);
            }
            proof {
                flushed_any = true;
                lemma_alignup_exact(cfg.cache_size as int, cfg.prog_size as int);
                assert(overlay(bd.blocks(), *pcache) =~= overlay(bpre, pn));
            }
        }
    }
    proof {
        assert(data@.subrange(0, len as int) =~= data@);
        assert(prog_expect(l0[block as int], g, off as int, data@.subrange(0, 0)) =~= l0[block as int]);
        assert(l0.update(block as int, prog_expect(l0[block as int], g, off as int, data@.subrange(0, 0)))
            =~= l0);
    }
    Ok(())
}


/// Drops the read cache, writes out the program cache and syncs the device.
pub fn lfs_bd_sync<D: BlockDevice>(
    cfg: &LfsConfig,
    bd: &mut D,
    block_count: LfsSize,
    pcache: &mut LfsCache,
    rcache: &mut LfsCache,
    validate: bool,
) -> (r: Result<(), LfsError>)
    requires
        cache_geometry_ok(*cfg),
        device_ok(*cfg, old(bd).blocks()),
        block_count == old(bd).blocks().len(),
        pcache_ok(*cfg, old(bd).blocks(), *old(pcache)),
        old(rcache).buffer@.len() == cfg.cache_size,
    ensures
        device_ok(*cfg, final(bd).blocks()),
        final(bd).blocks().len() == old(bd).blocks().len(),
        forall|i: int|
            0 <= i < old(bd).blocks().len() && i != old(pcache).block ==> #[trigger] final(bd).blocks()[i]
                == old(bd).blocks()[i],
        final(rcache).buffer@.len() == cfg.cache_size,
        !validate ==> final(rcache).block == LFS_BLOCK_NULL,
        r is Ok ==> {
            &&& final(pcache).block == LFS_BLOCK_NULL
            &&& pcache_ok(*cfg, final(bd).blocks(), *final(pcache))
            &&& final(bd).blocks() == flushed(old(bd).blocks(), *old(pcache), cfg.prog_size)
            &&& rcache_ok(*cfg, final(bd).blocks(), *final(rcache))
        },
        final(bd).reads_ok() == old(bd).reads_ok(),
        final(bd).writes_ok() == old(bd).writes_ok(),
        old(bd).reads_ok() && old(bd).writes_ok() ==> r is Ok,
{
    lfs_cache_drop(rcache);
    let ghost b1 = bd.blocks();
    let ghost r1 = *rcache;
    lfs_bd_flush(cfg, bd, block_count, pcache, rcache, validate)?;
    proof {
        if old(pcache).block == LFS_BLOCK_NULL || !validate {
            assert(*rcache == r1);
        }
    }
    bd.sync()
}

/// Erases `block` on the device.
pub fn lfs_bd_erase<D: BlockDevice>(bd: &mut D, block: LfsBlock) -> (r: Result<(), LfsError>)
    requires
        block < old(bd).blocks().len(),
    ensures
        final(bd).blocks().len() == old(bd).blocks().len(),
        forall|i: int|
            0 <= i < old(bd).blocks().len() ==> #[trigger] final(bd).blocks()[i].len()
                == old(bd).blocks()[i].len(),
        forall|i: int|
            0 <= i < old(bd).blocks().len() && i != block ==> #[trigger] final(bd).blocks()[i]
                == old(bd).blocks()[i],
        final(bd).reads_ok() == old(bd).reads_ok(),
        final(bd).writes_ok() == old(bd).writes_ok(),
        old(bd).writes_ok() ==> r is Ok,
{
    bd.erase(block)
}

/// What a program writes is what a read through the same program cache
/// gives back at that place.
pub proof fn lemma_read_after_prog(b: Seq<u8>, gstart: int, off: int, d: Seq<u8>)
    requires
        0 <= off,
        off + d.len() <= b.len(),
    ensures
        prog_expect(b, gstart, off, d).subrange(off, off + d.len()) == d,
        prog_expect(b, gstart, off, d).len() == b.len(),
{
    assert(prog_expect(b, gstart, off, d).subrange(off, off + d.len()) =~= d);
}

/// A program leaves the bytes before its gap and after its end as they were.
pub proof fn lemma_prog_leaves_rest(b: Seq<u8>, gstart: int, off: int, d: Seq<u8>, k: int)
    requires
        0 <= k < b.len(),
        gstart <= off,
        !(gstart <= k < off + d.len()),
    ensures
        prog_expect(b, gstart, off, d)[k] == b[k],
{
}

/// Writing out the program cache keeps what was seen through it: the
/// pending bytes are then on the device.
pub proof fn lemma_flush_keeps_pending(cfg: LfsConfig, blocks: Seq<Seq<u8>>, p: LfsCache)
    requires
        cache_geometry_ok(cfg),
        device_ok(cfg, blocks),
        pcache_ok(cfg, blocks, p),
        p.block < blocks.len(),
    ensures
        flushed(blocks, p, cfg.prog_size)[p.block as int].subrange(p.off as int, p.off + p.size)
            == overlay(blocks, p)[p.block as int].subrange(p.off as int, p.off + p.size),
        forall|i: int|
            0 <= i < blocks.len() && i != p.block ==> #[trigger] flushed(blocks, p, cfg.prog_size)[i]
                == blocks[i],
{
    let prog = cfg.prog_size as int;
    lemma_round_down(p.size + prog - 1, prog);
    assert(cfg.prog_size <= cfg.cache_size) by (nonlinear_arith)
        requires
            cfg.cache_size % cfg.prog_size == 0,
            cfg.cache_size > 0,
            cfg.prog_size > 0,
    ;
    let diff = (p.size + prog - 1) - (p.size + prog - 1) % prog;
    lemma_divides_trans(prog, cfg.cache_size as int, cfg.block_size as int);
    if diff > cfg.cache_size {
        lemma_aligned_gap(diff, cfg.cache_size as int, prog);
    }
    if p.off + diff > cfg.block_size {
        vstd::arithmetic::div_mod::lemma_mod_adds(p.off as int, diff, prog);
        lemma_aligned_gap(p.off + diff, cfg.block_size as int, prog);
    }
    assert(flushed(blocks, p, cfg.prog_size)[p.block as int].subrange(p.off as int, p.off + p.size)
        =~= overlay(blocks, p)[p.block as int].subrange(p.off as int, p.off + p.size));
}

} // verus!
