//! Open files: reading a file's bytes from its skip-list, or from the
//! metadata it is inlined in, through the file's own cache.
use vstd::prelude::*;
use crate::allocator::{la_off, lfs_alloc, lfs_alloc_ckpoint, lookahead_ok, marks_all};
use crate::bd::{
    BlockDevice, device_ok, lemma_contiguous_gap, lemma_overlay_index, lemma_window_contiguous, write_window, lemma_prog_leaves_rest,
    lemma_read_after_prog, lfs_bd_erase, lfs_bd_prog, lfs_bd_read, lfs_cache_drop, lfs_cache_zero, overlay,
    pcache_ok, prog_contiguous, prog_expect, rcache_ok,
};
use crate::ctz::same_in_use;
use crate::ctz::{
    ctz_chain_ok, ctz_index_spec, ctz_walk, lemma_block_start_grows, lemma_ctz_find_chain,
    lemma_ctz_index_layout, lemma_ctz_index_next, lemma_ctz_index_run, lfs_ctz_find,
};
use crate::defines::{
    LfsBlock, LfsCache, LfsConfig, LfsCtz, LfsError, LfsMdir, LfsOff, LfsOpenFlags, LfsSize, LfsSoff, LfsTag,
    LfsType, LFS_BLOCK_INLINE, LFS_BLOCK_NULL,
};
use crate::fs::{same_but_rcache, Lfs};
use crate::mdir::{attr_data, dir_walk, lfs_dir_getslice, lookup_absent, move_shift, walk_in_block, Lookup};
use crate::tag::{spec_mktag, spec_tag_size, LFS_MKTAG};
use crate::util::{lfs_aligndown, lfs_max, lfs_min};

verus! {

/// An open file: the metadata pair and id that name it, its skip-list,
/// its open and state flags, its position, the block and offset it is
/// reading or writing at, and its own cache.
pub struct LfsFile {
    pub id: u16,
    pub type_: u8,
    pub m: LfsMdir,
    pub ctz: LfsCtz,
    pub flags: u32,
    pub pos: LfsOff,
    pub block: LfsBlock,
    pub off: LfsOff,
    pub cache: LfsCache,
}

/// Whether `flags` has the bits of `f`.
pub open spec fn has_flag(flags: u32, f: LfsOpenFlags) -> bool {
    flags & f.spec_bits() != 0
}

/// Byte `pos` of a file of `size` bytes stored as the skip-list ending in
/// block `head`: the byte at the offset the index gives, in the block the
/// list reaches at that index.
pub open spec fn ctz_byte(l: Seq<Seq<u8>>, block_size: u32, head: u32, size: u32, pos: u32) -> u8 {
    let last = ctz_index_spec(block_size, (size - 1) as u32).0;
    let (i, o) = ctz_index_spec(block_size, pos);
    l[ctz_walk(l, head, last, i) as int][o as int]
}

/// Byte `pos` of a file whose skip-list is the well-formed `chain` is the
/// byte at the offset the index gives in the chain's block at that index:
/// a read through the list lands where the layout puts each byte.
pub proof fn lemma_ctz_byte_in_chain(l: Seq<Seq<u8>>, chain: Seq<u32>, block_size: u32, size: u32, pos: u32)
    requires
        block_size >= 128,
        0 < size,
        pos < size,
        ctz_chain_ok(l, chain, ctz_index_spec(block_size, (size - 1) as u32).0 as int),
    ensures
        ({
            let last = ctz_index_spec(block_size, (size - 1) as u32).0;
            let (i, o) = ctz_index_spec(block_size, pos);
            &&& i <= last
            &&& ctz_byte(l, block_size, chain[last as int], size, pos) == l[chain[i as int] as int][o as int]
        }),
{
    let last = ctz_index_spec(block_size, (size - 1) as u32).0;
    let i = ctz_index_spec(block_size, pos).0;
    lemma_ctz_index_layout(block_size, pos);
    lemma_ctz_index_layout(block_size, (size - 1) as u32);
    if i > last {
        lemma_block_start_grows(block_size, (last + 1) as nat, i as nat);
    }
    lemma_ctz_find_chain(l, chain, last, i);
}

/// The inline data of `file` as its metadata records it.
pub open spec fn inline_data<D: BlockDevice>(lfs: Lfs<D>, file: LfsFile) -> Seq<u8> {
    attr_data(lfs, file.m, spec_mktag(0xfff, 0x1ff, 0), spec_mktag(0x201, file.id as u32, 0))
}

/// An open file agrees with the filesystem it reads from: its cache
/// caches its data, an inline file fits a block, and while part way
/// through reading a block, its block and offset are where its position
/// lies.
pub open spec fn file_ok<D: BlockDevice>(lfs: Lfs<D>, file: LfsFile) -> bool {
    let bs = lfs.cfg.block_size;
    let reading = has_flag(file.flags, LfsOpenFlags::Reading) && file.off != bs;
    &&& file.id < 0x3ff
    &&& has_flag(file.flags, LfsOpenFlags::Inline) ==> {
        &&& inline_cache_ok(lfs.cfg, file.cache, inline_data(lfs, file))
        &&& file.ctz.size <= bs
        &&& reading ==> file.block == LFS_BLOCK_INLINE && file.off == file.pos
    }
    &&& !has_flag(file.flags, LfsOpenFlags::Inline) ==> {
        &&& rcache_ok(lfs.cfg, lfs.bd.blocks(), file.cache)
        &&& (reading && file.ctz.size > 0) ==> {
            let last = ctz_index_spec(bs, (file.ctz.size - 1) as u32).0;
            let (i, o) = ctz_index_spec(bs, file.pos);
            &&& file.block == ctz_walk(lfs.bd.blocks(), file.ctz.head, last, i)
            &&& file.off == o
        }
    }
}

/// How many bytes a read of `size` bytes at `pos` gets from a file of
/// `fsize` bytes.
pub open spec fn read_len(pos: u32, fsize: u32, size: u32) -> u32 {
    if pos >= fsize {
        0
    } else if size < fsize - pos {
        size
    } else {
        (fsize - pos) as u32
    }
}

/// A cache of an attribute's data, named by the inline block marker: the
/// bytes it holds are the data's bytes, wherever the data reaches.
pub open spec fn inline_cache_ok(cfg: LfsConfig, c: LfsCache, data: Seq<u8>) -> bool {
    &&& c.buffer@.len() == cfg.cache_size
    &&& c.block == LFS_BLOCK_INLINE ==> {
        &&& c.size <= cfg.cache_size
        &&& forall|k: int|
            0 <= k < c.size && c.off + k < data.len() ==> #[trigger] c.buffer@[k] == data[c.off + k]
    }
}

/// The given caches agree with the attribute data they cache.
pub open spec fn clean_caches(cfg: LfsConfig, rcache: LfsCache, pcache: Option<&LfsCache>, data: Seq<u8>) -> bool {
    &&& inline_cache_ok(cfg, rcache, data)
    &&& pcache matches Some(p) ==> inline_cache_ok(cfg, *p, data)
}

/// The cache names inline data and holds all of `[off, off + size)`.
pub open spec fn inline_cache_covers(c: LfsCache, off: u32, size: u32) -> bool {
    &&& c.block == LFS_BLOCK_INLINE
    &&& c.off <= off
    &&& off + size <= c.off + c.size
    &&& c.size <= c.buffer@.len()
}

/// Appends `src[from..to]` to `dst`.
fn append_part(dst: &mut Vec<u8>, src: &Vec<u8>, from: usize, to: usize)
    requires
        from <= to <= src@.len(),
    ensures
        final(dst)@ == old(dst)@ + src@.subrange(from as int, to as int),
{
    let mut i = from;
    while i < to
        invariant
            from <= i <= to,
            to <= src@.len(),
            dst@ == old(dst)@ + src@.subrange(from as int, i as int),
        decreases to - i,
    {
        dst.push(src[i]);
        i = i + 1;
        proof {
            assert(dst@ =~= old(dst)@ + src@.subrange(from as int, i as int));
        }
    }
}

/// A read of `size` bytes at `off` of the attribute that a lookup in `dir`
/// finds stays in its block, with room for a whole cache load past it: the
/// block is on the device, its log ends inside it, and the entry found, if
/// any, leaves that room.
pub open spec fn getread_fits<D: BlockDevice>(lfs: Lfs<D>, dir: LfsMdir, gmask: u32, gtag: u32, off: u32, size: u32) -> bool {
    let b = lfs.bd.blocks()[dir.pair[0] as int];
    &&& dir.pair[0] < lfs.block_count
    &&& dir.off <= lfs.cfg.block_size
    &&& dir_walk(b, dir.off, dir.etag, move_shift(lfs, dir, gmask, gtag), gmask, gtag) matches Lookup::Found(o, t, gd)
        ==> o + 4 + off + size + lfs.cfg.cache_size <= lfs.cfg.block_size
}

/// Reads `size` bytes at `off` of the data of the attribute of `dir` that
/// matches `gtag` under `gmask`, through the given caches of that data,
/// loading the read cache from the metadata, `hint` bytes ahead, where
/// neither holds them. Every byte read that lies within the attribute's
/// data is that data's byte. A failed load drops the read cache.
#[verifier::rlimit(40)]
pub fn lfs_dir_getread<D: BlockDevice>(
    lfs: &mut Lfs<D>,
    dir: &LfsMdir,
    pcache: Option<&LfsCache>,
    rcache: &mut LfsCache,
    hint: LfsSize,
    gmask: LfsTag,
    gtag: LfsTag,
    off: LfsOff,
    size: LfsSize,
) -> (r: Result<Vec<u8>, LfsError>)
    requires
        old(lfs).caches_ok(),
        old(rcache).buffer@.len() == old(lfs).cfg.cache_size,
        (pcache is None && inline_cache_covers(*old(rcache), off, size)) || clean_caches(
            old(lfs).cfg,
            *old(rcache),
            pcache,
            attr_data(*old(lfs), *dir, gmask, gtag),
        ),
        hint > 0,
    ensures
        final(lfs).caches_ok(),
        same_but_rcache(*final(lfs), *old(lfs)),
        final(rcache).buffer@.len() == old(lfs).cfg.cache_size,
        off + size > old(lfs).cfg.block_size ==> r == Err::<Vec<u8>, LfsError>(LfsError::Corrupt),
        clean_caches(old(lfs).cfg, *old(rcache), pcache, attr_data(*old(lfs), *dir, gmask, gtag)) ==> {
            let data = attr_data(*old(lfs), *dir, gmask, gtag);
            &&& inline_cache_ok(old(lfs).cfg, *final(rcache), data)
            &&& r matches Ok(v) ==> {
                &&& v@.len() == size
                &&& forall|j: int| 0 <= j < size && off + j < data.len() ==> #[trigger] v@[j] == data[off + j]
            }
        },
        (pcache is None && inline_cache_covers(*old(rcache), off, size) && off + size <= old(lfs).cfg.block_size)
            ==> {
            &&& r matches Ok(v) && v@ == old(rcache).buffer@.subrange(
                off - old(rcache).off,
                off - old(rcache).off + size,
            )
            &&& *final(rcache) == *old(rcache)
            &&& *final(lfs) == *old(lfs)
        },
        old(lfs).bd.reads_ok() && off + size <= old(lfs).cfg.block_size && getread_fits(*old(lfs), *dir, gmask, gtag, off, size)
            ==> r is Ok || r == Err::<Vec<u8>, LfsError>(LfsError::NoEnt),
        r == Err::<Vec<u8>, LfsError>(LfsError::NoEnt) ==> lookup_absent(*old(lfs), *dir, gmask, gtag),
{
    let ghost data = attr_data(*lfs, *dir, gmask, gtag);
    let ghost lfs0 = *lfs;
    let ghost rc0 = *rcache;
    let ghost clean = clean_caches(lfs.cfg, *rcache, pcache, data);
    let ghost cov = pcache is None && inline_cache_covers(*rcache, off, size);
    if off as u64 + size as u64 > lfs.cfg.block_size as u64 {
        return Err(LfsError::Corrupt);
    }
    let rs = lfs.cfg.read_size;
    let cs = lfs.cfg.cache_size;
    proof {
        assert(rs <= cs) by (nonlinear_arith)
            requires
                cs % rs == 0,
                cs > 0,
                rs > 0,
        ;
    }
    let mut out: Vec<u8> = Vec::new();
    let mut cur = off;
    let mut rem = size;
    while rem > 0
        invariant
            lfs.caches_ok(),
            same_but_rcache(*lfs, lfs0),
            data == attr_data(lfs0, *dir, gmask, gtag),
            lfs0 == *old(lfs),
            rs == lfs.cfg.read_size,
            cs == lfs.cfg.cache_size,
            0 < rs <= cs,
            rcache.buffer@.len() == cs,
            rc0 == *old(rcache),
            clean == clean_caches(lfs.cfg, rc0, pcache, data),
            cov == (pcache is None && inline_cache_covers(rc0, off, size)),
            cov || clean,
            clean ==> inline_cache_ok(lfs.cfg, *rcache, data),
            cov ==> *rcache == rc0 && *lfs == lfs0 && out@ == rc0.buffer@.subrange(off - rc0.off, cur - rc0.off),
            hint > 0,
            off <= cur,
            cur + rem == off + size,
            off + size <= lfs.cfg.block_size,
            out@.len() == cur - off,
            clean ==> forall|j: int| 0 <= j < cur - off && off + j < data.len() ==> #[trigger] out@[j] == data[off + j],
            lfs.bd.reads_ok() == lfs0.bd.reads_ok(),
        decreases rem,
    {
        let ghost before = out@;
        let mut diff = rem;
        if let Some(p) = pcache {
            if p.block == LFS_BLOCK_INLINE && (cur as u64) < p.off as u64 + p.size as u64 {
                if cur >= p.off {
                    let chunk = if p.size - (cur - p.off) < diff {
                        p.size - (cur - p.off)
                    } else {
                        diff
                    };
                    append_part(&mut out, &p.buffer, (cur - p.off) as usize, (cur - p.off + chunk) as usize);
                    proof {
                        assert forall|j: int| 0 <= j < cur + chunk - off && off + j < data.len() implies
                            #[trigger] out@[j] == data[off + j] by {
                            if j >= cur - off {
                                assert(out@[j] == p.buffer@[cur - p.off + (j - (cur - off))]);
                            } else {
                                assert(out@[j] == before[j]);
                            }
                        }
                    }
                    cur = cur + chunk;
                    rem = rem - chunk;
                    continue;
                }
                diff = if p.off - cur < diff { p.off - cur } else { diff };
            }
        }
        let pdiff = diff;
        if rcache.block == LFS_BLOCK_INLINE && (cur as u64) < rcache.off as u64 + rcache.size as u64 {
            if cur >= rcache.off {
                let chunk = if rcache.size - (cur - rcache.off) < diff {
                    rcache.size - (cur - rcache.off)
                } else {
                    diff
                };
                append_part(&mut out, &rcache.buffer, (cur - rcache.off) as usize, (cur - rcache.off + chunk) as usize);
                proof {
                    if clean {
                        assert forall|j: int| 0 <= j < cur + chunk - off && off + j < data.len() implies
                            #[trigger] out@[j] == data[off + j] by {
                            if j >= cur - off {
                                assert(out@[j] == rcache.buffer@[cur - rcache.off + (j - (cur - off))]);
                            } else {
                                assert(out@[j] == before[j]);
                            }
                        }
                    }
                    if cov {
                        assert(out@ =~= rc0.buffer@.subrange(off - rc0.off, cur + chunk - rc0.off));
                    }
                }
                cur = cur + chunk;
                rem = rem - chunk;
                continue;
            }
        }
        proof {
            assert(!cov);
        }
        let roff = lfs_aligndown(cur, rs);
        let end64: u64 = cur as u64 + hint as u64 + (rs - 1) as u64;
        let end: u64 = end64 - end64 % (rs as u64);
        let rsize: u32 = if end < cs as u64 { end as u32 } else { cs };
        proof {
            assert(end > cur) by (nonlinear_arith)
                requires
                    end64 == cur + hint + rs - 1,
                    end == end64 - end64 % (rs as u64),
                    hint > 0,
                    rs > 0,
            ;
        }
        let ghost lc = *lfs;
        proof {
            if lfs0.bd.reads_ok() && getread_fits(lfs0, *dir, gmask, gtag, off, size) {
                assert(move_shift(lc, *dir, gmask, gtag) == move_shift(lfs0, *dir, gmask, gtag));
                assert(roff <= cur);
                assert(walk_in_block(lc, *dir, gmask, gtag, roff, rsize));
            }
            assert(lookup_absent(lc, *dir, gmask, gtag) == lookup_absent(lfs0, *dir, gmask, gtag));
        }
        let got = lfs_dir_getslice(lfs, dir, gmask, gtag, roff, rsize);
        let buf = match got {
            Ok((_, buf)) => buf,
            Err(e) => {
                rcache.block = LFS_BLOCK_NULL;
                return Err(e);
            },
        };
        proof {
            let b = lc.bd.blocks()[dir.pair[0] as int];
            let lk = dir_walk(b, dir.off, dir.etag, move_shift(lc, *dir, gmask, gtag), gmask, gtag);
            assert(got is Ok);
            assert(lk is Found);
            let o = lk->0;
            let tag = lk->1;
            let n = if spec_tag_size(tag) < rsize { spec_tag_size(tag) } else { rsize };
            assert(buf@.subrange(0, n as int) == b.subrange(o + 4 + roff, o + 4 + roff + n));
            assert(data == Seq::new(spec_tag_size(tag) as nat, |k: int| b[o + 4 + k]));
            assert forall|k: int| 0 <= k < rsize && roff + k < data.len() implies #[trigger] buf@[k]
                == data[roff + k] by {
                assert(k < n);
                assert(buf@[k] == buf@.subrange(0, n as int)[k]);
            }
        }
        let mut i: u32 = 0;
        while i < rsize
            invariant
                i <= rsize,
                rsize <= cs,
                buf@.len() == rsize,
                rcache.buffer@.len() == cs,
                forall|k: int| 0 <= k < i ==> #[trigger] rcache.buffer@[k] == buf@[k],
            decreases rsize - i,
        {
            rcache.buffer.set(i as usize, buf[i as usize]);
            i = i + 1;
        }
        rcache.block = LFS_BLOCK_INLINE;
        rcache.off = roff;
        rcache.size = rsize;
        proof {
            assert(cur < roff + rsize);
        }
        let chunk = if rsize - (cur - roff) < pdiff {
            rsize - (cur - roff)
        } else {
            pdiff
        };
        append_part(&mut out, &rcache.buffer, (cur - roff) as usize, (cur - roff + chunk) as usize);
        proof {
            assert forall|j: int| 0 <= j < cur + chunk - off && off + j < data.len() implies
                #[trigger] out@[j] == data[off + j] by {
                if j >= cur - off {
                    assert(out@[j] == rcache.buffer@[cur - roff + (j - (cur - off))]);
                } else {
                    assert(out@[j] == before[j]);
                }
            }
        }
        cur = cur + chunk;
        rem = rem - chunk;
    }
    Ok(out)
}

/// The position of `file`.
pub fn lfs_file_tell_<D: BlockDevice>(lfs: &Lfs<D>, file: &LfsFile) -> (r: LfsSoff)
    ensures
        r == file.pos as i32,
{
    file.pos as LfsSoff
}

/// The size of `file`: while it is being written, as far as its position
/// has gone when that is past the size it had.
pub fn lfs_file_size_<D: BlockDevice>(lfs: &Lfs<D>, file: &LfsFile) -> (r: LfsSoff)
    ensures
        r == (if has_flag(file.flags, LfsOpenFlags::Writing) && file.pos > file.ctz.size {
            file.pos
        } else {
            file.ctz.size
        }) as i32,
{
    if file.flags & LfsOpenFlags::Writing.bits() != 0 {
        lfs_max(file.pos, file.ctz.size) as LfsSoff
    } else {
        file.ctz.size as LfsSoff
    }
}

/// Every part of the filesystem but the device, the caches and the
/// allocator's window is the same.
pub open spec fn same_but_io<D: BlockDevice>(a: Lfs<D>, b: Lfs<D>) -> bool {
    &&& a.cfg == b.cfg
    &&& a.root == b.root
    &&& a.mlist == b.mlist
    &&& a.seed == b.seed
    &&& a.gstate == b.gstate
    &&& a.gdisk == b.gdisk
    &&& a.gdelta == b.gdelta
    &&& a.block_count == b.block_count
    &&& a.name_max == b.name_max
    &&& a.file_max == b.file_max
    &&& a.attr_max == b.attr_max
    &&& a.inline_max == b.inline_max
}

/// The block a moving file's bytes are copied from: the metadata block of
/// an inline file, else its own block.
pub open spec fn moving_source(file: LfsFile) -> u32 {
    if has_flag(file.flags, LfsOpenFlags::Inline) {
        file.m.pair[0]
    } else {
        file.block
    }
}

/// `v` holds the first `n` bytes of `file` as they were before it moved:
/// those its cache holds of an inline file, or else its inline data as
/// recorded; or what its block held with its pending writes.
pub open spec fn moved_ok<D: BlockDevice>(lfs: Lfs<D>, file: LfsFile, v: Seq<u8>, n: int) -> bool {
    if has_flag(file.flags, LfsOpenFlags::Inline) {
        let data = inline_data(lfs, file);
        &&& inline_cache_covers(file.cache, 0, file.off) ==> forall|k: int|
            0 <= k < n ==> #[trigger] v[k] == file.cache.buffer@[k]
        &&& inline_cache_ok(lfs.cfg, file.cache, data) ==> forall|k: int|
            0 <= k < n && k < data.len() ==> #[trigger] v[k] == data[k]
    } else {
        forall|k: int|
            0 <= k < n ==> #[trigger] v[k] == overlay(lfs.bd.blocks(), file.cache)[file.block as int][k]
    }
}

/// What a file needs to be moved: a small id, an offset within a block,
/// and its cache caching its inline data or holding all of it up to the
/// offset, or holding writes to its block.
pub open spec fn movable<D: BlockDevice>(lfs: Lfs<D>, file: LfsFile) -> bool {
    &&& file.id < 0x3ff
    &&& file.off <= lfs.cfg.block_size
    &&& moving_source(file) < lfs.block_count
    &&& has_flag(file.flags, LfsOpenFlags::Inline) ==> {
        ||| inline_cache_ok(lfs.cfg, file.cache, inline_data(lfs, file))
        ||| (inline_cache_covers(file.cache, 0, file.off) && file.cache.buffer@.len() == lfs.cfg.cache_size)
    }
    &&& !has_flag(file.flags, LfsOpenFlags::Inline) ==> {
        &&& pcache_ok(lfs.cfg, lfs.bd.blocks(), file.cache)
        &&& (file.cache.block == LFS_BLOCK_NULL || file.cache.block == file.block)
    }
}

/// Erases `nblock` and copies the first `file.off` bytes of `file` into it
/// through the filesystem's program cache: `Ok(true)` when done,
/// `Ok(false)` when the device finds the block bad. Unless done, the
/// filesystem's program cache is emptied; after a failed program, its read
/// cache too.
#[verifier::rlimit(60)]
fn lfs_file_relocate_try<D: BlockDevice>(lfs: &mut Lfs<D>, file: &mut LfsFile, nblock: LfsBlock) -> (r: Result<bool, LfsError>)
    requires
        old(lfs).caches_ok(),
        old(lfs).pcache.block == LFS_BLOCK_NULL,
        nblock < old(lfs).block_count,
        movable(*old(lfs), *old(file)),
        moving_source(*old(file)) != nblock,
    ensures
        final(lfs).caches_ok(),
        same_but_io(*final(lfs), *old(lfs)),
        final(lfs).lookahead == old(lfs).lookahead,
        final(lfs).bd.blocks().len() == old(lfs).bd.blocks().len(),
        forall|x: int|
            0 <= x < old(lfs).bd.blocks().len() && x != nblock ==> #[trigger] final(lfs).bd.blocks()[x]
                == old(lfs).bd.blocks()[x],
        final(file).id == old(file).id,
        final(file).type_ == old(file).type_,
        final(file).m == old(file).m,
        final(file).ctz == old(file).ctz,
        final(file).flags == old(file).flags,
        final(file).pos == old(file).pos,
        final(file).block == old(file).block,
        final(file).off == old(file).off,
        final(file).cache.buffer@.len() == old(lfs).cfg.cache_size,
        !has_flag(old(file).flags, LfsOpenFlags::Inline) ==> final(file).cache == old(file).cache,
        has_flag(old(file).flags, LfsOpenFlags::Inline) && inline_cache_ok(
            old(lfs).cfg,
            old(file).cache,
            inline_data(*old(lfs), *old(file)),
        ) ==> inline_cache_ok(old(lfs).cfg, final(file).cache, inline_data(*old(lfs), *old(file))),
        has_flag(old(file).flags, LfsOpenFlags::Inline) && inline_cache_covers(old(file).cache, 0, old(file).off)
            ==> final(file).cache == old(file).cache,
        r != Ok::<bool, LfsError>(true) ==> final(lfs).pcache.block == LFS_BLOCK_NULL,
        r == Ok::<bool, LfsError>(true) ==> {
            let v = overlay(final(lfs).bd.blocks(), final(lfs).pcache);
            &&& (final(lfs).pcache.block == LFS_BLOCK_NULL || final(lfs).pcache.block == nblock)
            &&& write_window(final(lfs).cfg, final(lfs).pcache, nblock, old(file).off)
            &&& moved_ok(*old(lfs), *old(file), v[nblock as int], old(file).off as int)
            &&& forall|x: int| 0 <= x < v.len() && x != nblock ==> #[trigger] v[x] == old(lfs).bd.blocks()[x]
        },
        final(lfs).bd.reads_ok() == old(lfs).bd.reads_ok(),
        final(lfs).bd.writes_ok() == old(lfs).bd.writes_ok(),
        !has_flag(old(file).flags, LfsOpenFlags::Inline) && old(lfs).bd.reads_ok() && old(lfs).bd.writes_ok() ==> r
            == Ok::<bool, LfsError>(true),
        has_flag(old(file).flags, LfsOpenFlags::Inline) && inline_cache_covers(old(file).cache, 0, old(file).off)
            && old(lfs).bd.reads_ok() && old(lfs).bd.writes_ok() ==> r == Ok::<bool, LfsError>(true),
        has_flag(old(file).flags, LfsOpenFlags::Inline) && old(lfs).bd.reads_ok() && old(lfs).bd.writes_ok()
            && getread_fits(
            *old(lfs),
            old(file).m,
            spec_mktag(0xfff, 0x1ff, 0),
            spec_mktag(0x201, old(file).id as u32, 0),
            0,
            old(file).off,
        ) ==> r == Ok::<bool, LfsError>(true) || (r == Err::<bool, LfsError>(LfsError::NoEnt) && lookup_absent(
            *old(lfs),
            old(file).m,
            spec_mktag(0xfff, 0x1ff, 0),
            spec_mktag(0x201, old(file).id as u32, 0),
        )),
{
    let ghost lfs0 = *lfs;
    let ghost file0 = *file;
    let ghost b0 = lfs.bd.blocks();
    let ghost data = inline_data(*lfs, *file);
    let bc = lfs.block_count;
    let bs = lfs.cfg.block_size;
    let er = lfs_bd_erase(&mut lfs.bd, nblock);
    if lfs.rcache.block == nblock {
        lfs_cache_drop(&mut lfs.rcache);
    }
    proof {
        assert forall|i: int| 0 <= i < lfs.bd.blocks().len() implies #[trigger] lfs.bd.blocks()[i].len()
            == bs by {
            assert(b0[i].len() == bs);
        }
    }
    match er {
        Ok(()) => {},
        Err(LfsError::Corrupt) => {
            lfs_cache_zero(&mut lfs.pcache);
            return Ok(false);
        },
        Err(e) => {
            lfs_cache_zero(&mut lfs.pcache);
            return Err(e);
        },
    }
    let inline = file.flags & LfsOpenFlags::Inline.bits() != 0;
    let off = file.off;
    let mut i: u32 = 0;
    while i < off
        invariant
            lfs.caches_ok(),
            same_but_io(*lfs, lfs0),
            lfs.lookahead == lfs0.lookahead,
            lfs0 == *old(lfs),
            file0 == *old(file),
            b0 == lfs0.bd.blocks(),
            data == inline_data(lfs0, file0),
            bc == lfs.block_count,
            bs == lfs.cfg.block_size,
            nblock < bc,
            lfs.bd.blocks().len() == b0.len(),
            forall|x: int| 0 <= x < b0.len() && x != nblock ==> #[trigger] lfs.bd.blocks()[x] == b0[x],
            forall|x: int|
                0 <= x < b0.len() && x != nblock ==> #[trigger] overlay(lfs.bd.blocks(), lfs.pcache)[x] == b0[x],
            lfs.pcache.block == LFS_BLOCK_NULL || lfs.pcache.block == nblock,
            write_window(lfs.cfg, lfs.pcache, nblock, i),
            movable(lfs0, file0),
            moving_source(file0) != nblock,
            inline == has_flag(file0.flags, LfsOpenFlags::Inline),
            file.id == file0.id,
            file.type_ == file0.type_,
            file.m == file0.m,
            file.ctz == file0.ctz,
            file.flags == file0.flags,
            file.pos == file0.pos,
            file.block == file0.block,
            file.off == file0.off,
            inline && inline_cache_ok(lfs.cfg, file0.cache, data) ==> inline_cache_ok(lfs.cfg, file.cache, data),
            inline && inline_cache_covers(file0.cache, 0, file0.off) ==> file.cache == file0.cache,
            !inline ==> file.cache == file0.cache,
            file.cache.buffer@.len() == lfs.cfg.cache_size,
            off == file0.off,
            i <= off,
            off <= bs,
            moved_ok(lfs0, file0, overlay(lfs.bd.blocks(), lfs.pcache)[nblock as int], i as int),
            lfs.bd.reads_ok() == lfs0.bd.reads_ok(),
            lfs.bd.writes_ok() == lfs0.bd.writes_ok(),
        decreases off - i,
    {
        let ghost pre = *lfs;
        let d = if inline {
            let gmask = LFS_MKTAG(0xfff, 0x1ff, 0);
            let gtag = LFS_MKTAG(LfsType::InlineStruct.value() as u32, file.id as u32, 0);
            proof {
                assert(lfs.bd.blocks()[file.m.pair[0] as int] == b0[file.m.pair[0] as int]);
            }
            let ghost fc = file.cache;
            proof {
                assert(gtag == spec_mktag(0x201, file0.id as u32, 0));
                assert(move_shift(*lfs, file.m, gmask, gtag) == move_shift(lfs0, file0.m, gmask, gtag));
                assert(lookup_absent(*lfs, file.m, gmask, gtag) == lookup_absent(lfs0, file0.m, gmask, gtag));
                assert(getread_fits(lfs0, file0.m, gmask, gtag, 0, off) ==> getread_fits(*lfs, file.m, gmask, gtag, i, 1));
            }
            let res = lfs_dir_getread(lfs, &file.m, None, &mut file.cache, off - i, gmask, gtag, i, 1);
            match res {
                Ok(d) => {
                    proof {
                        if inline_cache_covers(file0.cache, 0, off) {
                            assert(fc == file0.cache);
                            assert(inline_cache_covers(fc, i, 1));
                            assert(d@[0] == file0.cache.buffer@[i as int]);
                        }
                    }
                    d
                },
                Err(e) => {
                    lfs_cache_zero(&mut lfs.pcache);
                    return Err(e);
                },
            }
        } else {
            let res = lfs_bd_read(&lfs.cfg, &lfs.bd, bc, Some(&file.cache), &mut lfs.rcache, off - i, file.block, i, 1);
            match res {
                Ok(d) => d,
                Err(e) => {
                    lfs_cache_zero(&mut lfs.pcache);
                    return Err(e);
                },
            }
        };
        let ghost vpre = overlay(lfs.bd.blocks(), lfs.pcache);
        proof {
            lemma_window_contiguous(lfs.cfg, lfs.pcache, nblock, i);
            lemma_contiguous_gap(lfs.cfg, lfs.pcache, nblock, i);
            lemma_overlay_index(lfs.cfg, lfs.bd.blocks(), lfs.pcache, nblock as int, 0);
            if !inline {
                assert(overlay(lfs.bd.blocks(), file.cache)[file.block as int] == overlay(b0, file0.cache)[file0.block as int]);
            }
        }
        let pr = lfs_bd_prog(&lfs.cfg, &mut lfs.bd, bc, &mut lfs.pcache, &mut lfs.rcache, true, nblock, i, d.as_slice());
        match pr {
            Ok(()) => {},
            Err(LfsError::Corrupt) => {
                lfs_cache_zero(&mut lfs.pcache);
                lfs_cache_drop(&mut lfs.rcache);
                return Ok(false);
            },
            Err(e) => {
                lfs_cache_zero(&mut lfs.pcache);
                lfs_cache_drop(&mut lfs.rcache);
                return Err(e);
            },
        }
        proof {
            let vn = overlay(lfs.bd.blocks(), lfs.pcache);
            lemma_read_after_prog(vpre[nblock as int], i as int, i as int, d@);
            assert(vn[nblock as int] == prog_expect(vpre[nblock as int], i as int, i as int, d@));
            assert forall|k: int| 0 <= k < i + 1 implies #[trigger] vn[nblock as int][k] == (if k < i {
                vpre[nblock as int][k]
            } else {
                d@[0]
            }) by {
                if k < i {
                    lemma_prog_leaves_rest(vpre[nblock as int], i as int, i as int, d@, k);
                }
            }
            assert(moved_ok(lfs0, file0, vn[nblock as int], i + 1));
        }
        i = i + 1;
    }
    Ok(true)
}

/// Sets the writing flag, keeping every other.
pub(crate) fn set_writing(flags: u32) -> (r: u32)
    ensures
        r == flags | LfsOpenFlags::Writing.spec_bits(),
        has_flag(r, LfsOpenFlags::Writing),
        has_flag(r, LfsOpenFlags::Inline) == has_flag(flags, LfsOpenFlags::Inline),
        has_flag(r, LfsOpenFlags::Reading) == has_flag(flags, LfsOpenFlags::Reading),
{
    assert((flags | 0x020000u32) & 0x020000u32 != 0 && ((flags | 0x020000u32) & 0x100000u32 != 0) == (flags
        & 0x100000u32 != 0) && ((flags | 0x020000u32) & 0x040000u32 != 0) == (flags & 0x040000u32 != 0))
        by (bit_vector);
    flags | LfsOpenFlags::Writing.bits()
}

/// Moves a file's bytes so far in its block, or its inline data, to a new
/// block through the program cache, trying further blocks while the device
/// finds them bad. The file then names the new block, holds its pending
/// writes in its own cache, and is writing.
pub fn lfs_file_relocate<D: BlockDevice>(lfs: &mut Lfs<D>, in_use: &[LfsBlock], file: &mut LfsFile) -> (r: Result<(), LfsError>)
    requires
        old(lfs).caches_ok(),
        old(lfs).pcache.block == LFS_BLOCK_NULL,
        lookahead_ok(old(lfs).lookahead, old(lfs).cfg.lookahead_size, old(lfs).block_count),
        0 < old(lfs).cfg.lookahead_size <= 0x1000_0000,
        forall|i: int| 0 <= i < in_use@.len() ==> #[trigger] in_use@[i] < old(lfs).block_count,
        marks_all(old(lfs).lookahead, old(lfs).block_count, in_use@),
        in_use@.contains(moving_source(*old(file))),
        movable(*old(lfs), *old(file)),
    ensures
        final(lfs).caches_ok(),
        final(lfs).pcache.block == LFS_BLOCK_NULL,
        same_but_io(*final(lfs), *old(lfs)),
        lookahead_ok(final(lfs).lookahead, final(lfs).cfg.lookahead_size, final(lfs).block_count),
        marks_all(final(lfs).lookahead, final(lfs).block_count, in_use@),
        final(lfs).bd.blocks().len() == old(lfs).bd.blocks().len(),
        same_in_use(final(lfs).bd.blocks(), old(lfs).bd.blocks(), in_use@),
        final(file).id == old(file).id,
        final(file).type_ == old(file).type_,
        final(file).m == old(file).m,
        final(file).ctz == old(file).ctz,
        final(file).pos == old(file).pos,
        final(file).off == old(file).off,
        r is Err ==> final(file).flags == old(file).flags && final(file).block == old(file).block,
        r is Ok ==> final(lfs).lookahead.ckpoint < old(lfs).lookahead.ckpoint,
        r is Ok ==> {
            let nb = final(file).block;
            let v = overlay(final(lfs).bd.blocks(), final(file).cache);
            &&& nb < old(lfs).block_count
            &&& !in_use@.contains(nb)
            &&& la_off(final(lfs).lookahead.start, final(lfs).block_count, nb) < final(lfs).lookahead.next
            &&& final(file).flags == (old(file).flags | LfsOpenFlags::Writing.spec_bits())
            &&& has_flag(final(file).flags, LfsOpenFlags::Writing)
            &&& has_flag(final(file).flags, LfsOpenFlags::Inline) == has_flag(old(file).flags, LfsOpenFlags::Inline)
            &&& pcache_ok(final(lfs).cfg, final(lfs).bd.blocks(), final(file).cache)
            &&& (final(file).cache.block == LFS_BLOCK_NULL || final(file).cache.block == nb)
            &&& write_window(final(lfs).cfg, final(file).cache, nb, final(file).off)
            &&& moved_ok(*old(lfs), *old(file), v[nb as int], old(file).off as int)
        },
        final(lfs).bd.reads_ok() == old(lfs).bd.reads_ok(),
        final(lfs).bd.writes_ok() == old(lfs).bd.writes_ok(),
        !has_flag(old(file).flags, LfsOpenFlags::Inline) && old(lfs).bd.reads_ok() && old(lfs).bd.writes_ok() && r
            is Err ==> r == Err::<(), LfsError>(LfsError::NoSpc) && final(lfs).lookahead.ckpoint == 0,
        has_flag(old(file).flags, LfsOpenFlags::Inline) && inline_cache_covers(old(file).cache, 0, old(file).off)
            && old(lfs).bd.reads_ok() && old(lfs).bd.writes_ok() && r is Err ==> r == Err::<(), LfsError>(
            LfsError::NoSpc,
        ) && final(lfs).lookahead.ckpoint == 0,
        has_flag(old(file).flags, LfsOpenFlags::Inline) && old(lfs).bd.reads_ok() && old(lfs).bd.writes_ok()
            && getread_fits(
            *old(lfs),
            old(file).m,
            spec_mktag(0xfff, 0x1ff, 0),
            spec_mktag(0x201, old(file).id as u32, 0),
            0,
            old(file).off,
        ) && r is Err ==> (r == Err::<(), LfsError>(LfsError::NoSpc) && final(lfs).lookahead.ckpoint == 0) || (r
            == Err::<(), LfsError>(LfsError::NoEnt) && lookup_absent(
            *old(lfs),
            old(file).m,
            spec_mktag(0xfff, 0x1ff, 0),
            spec_mktag(0x201, old(file).id as u32, 0),
        )),
{
    let ghost lfs0 = *lfs;
    let ghost file0 = *file;
    let ghost b0 = lfs.bd.blocks();
    let ghost bc = lfs.block_count;
    let ghost src = moving_source(*file);
    loop
        invariant
            lfs.caches_ok(),
            lfs.pcache.block == LFS_BLOCK_NULL,
            same_but_io(*lfs, lfs0),
            lfs0 == *old(lfs),
            file0 == *old(file),
            b0 == lfs0.bd.blocks(),
            bc == lfs.block_count,
            lookahead_ok(lfs.lookahead, lfs.cfg.lookahead_size, lfs.block_count),
            0 < lfs.cfg.lookahead_size <= 0x1000_0000,
            forall|i: int| 0 <= i < in_use@.len() ==> #[trigger] in_use@[i] < bc,
            marks_all(lfs.lookahead, bc, in_use@),
            in_use@.contains(src),
            src == moving_source(file0),
            lfs.bd.blocks().len() == b0.len(),
            same_in_use(lfs.bd.blocks(), b0, in_use@),
            movable(lfs0, file0),
            *file == file0 || (has_flag(file0.flags, LfsOpenFlags::Inline) && file.id == file0.id
                && file.type_ == file0.type_ && file.m
                == file0.m && file.ctz == file0.ctz && file.flags == file0.flags && file.pos == file0.pos
                && file.block == file0.block && file.off == file0.off && inline_cache_ok(
                lfs.cfg,
                file0.cache,
                inline_data(lfs0, file0),
            ) && inline_cache_ok(lfs.cfg, file.cache, inline_data(lfs0, file0)) && !inline_cache_covers(
                file0.cache,
                0,
                file0.off,
            ) && file.cache.buffer@.len() == lfs.cfg.cache_size),
            lfs.lookahead.ckpoint <= lfs0.lookahead.ckpoint,
            lfs.bd.reads_ok() == lfs0.bd.reads_ok(),
            lfs.bd.writes_ok() == lfs0.bd.writes_ok(),
        decreases lfs.lookahead.ckpoint,
    {
        let nblock = lfs_alloc(lfs, in_use)?;
        let ghost lt = *lfs;
        let ghost ft = *file;
        proof {
            let w = choose|w: int| 0 <= w < in_use@.len() && in_use@[w] == src;
            assert(lfs.bd.blocks()[src as int] == b0[src as int]);
            assert(nblock != src);
            if has_flag(file0.flags, LfsOpenFlags::Inline) {
                assert(inline_data(lt, ft) == inline_data(lfs0, file0));
                let gm = spec_mktag(0xfff, 0x1ff, 0);
                let gt = spec_mktag(0x201, file0.id as u32, 0);
                assert(move_shift(lt, ft.m, gm, gt) == move_shift(lfs0, file0.m, gm, gt));
                assert(lookup_absent(lt, ft.m, gm, gt) == lookup_absent(lfs0, file0.m, gm, gt));
                assert(getread_fits(lt, ft.m, gm, gt, 0, ft.off) == getread_fits(lfs0, file0.m, gm, gt, 0, file0.off));
            }
            assert(movable(lt, ft));
        }
        let done = lfs_file_relocate_try(lfs, file, nblock)?;
        proof {
            assert forall|j: int| 0 <= j < in_use@.len() implies #[trigger] lfs.bd.blocks()[in_use@[j] as int]
                == b0[in_use@[j] as int] by {
                assert(in_use@.contains(in_use@[j]));
                assert(in_use@[j] != nblock);
                assert(lt.bd.blocks()[in_use@[j] as int] == b0[in_use@[j] as int]);
            }
        }
        if done {
            let ghost pc = lfs.pcache;
            std::mem::swap(&mut file.cache.buffer, &mut lfs.pcache.buffer);
            file.cache.block = lfs.pcache.block;
            file.cache.off = lfs.pcache.off;
            file.cache.size = lfs.pcache.size;
            lfs_cache_zero(&mut lfs.pcache);
            file.block = nblock;
            file.flags = set_writing(file.flags);
            proof {
                assert(file.cache == pc);
                if !has_flag(file0.flags, LfsOpenFlags::Inline) {
                    assert(overlay(lt.bd.blocks(), ft.cache)[ft.block as int] == overlay(b0, file0.cache)[file0.block as int]);
                } else {
                    assert(inline_data(lt, ft) == inline_data(lfs0, file0));
                    if inline_cache_covers(file0.cache, 0, file0.off) {
                        assert(ft == file0);
                    }
                }
            }
            return Ok(());
        }
    }
}

/// Clears the inline flag, keeping every other.
fn clear_inline(flags: u32) -> (r: u32)
    ensures
        r == flags & !LfsOpenFlags::Inline.spec_bits(),
        !has_flag(r, LfsOpenFlags::Inline),
        has_flag(r, LfsOpenFlags::Writing) == has_flag(flags, LfsOpenFlags::Writing),
        has_flag(r, LfsOpenFlags::Reading) == has_flag(flags, LfsOpenFlags::Reading),
{
    assert((flags & !0x100000u32) & 0x100000u32 == 0 && ((flags & !0x100000u32) & 0x020000u32 != 0) == (flags
        & 0x020000u32 != 0) && ((flags & !0x100000u32) & 0x040000u32 != 0) == (flags & 0x040000u32 != 0))
        by (bit_vector);
    flags & !LfsOpenFlags::Inline.bits()
}

/// Moves an inline file out to a block of its own, holding its bytes up to
/// its position; the file is then writing and no longer inline.
pub fn lfs_file_outline<D: BlockDevice>(lfs: &mut Lfs<D>, in_use: &[LfsBlock], file: &mut LfsFile) -> (r: Result<(), LfsError>)
    requires
        old(lfs).caches_ok(),
        old(lfs).pcache.block == LFS_BLOCK_NULL,
        lookahead_ok(old(lfs).lookahead, old(lfs).cfg.lookahead_size, old(lfs).block_count),
        0 < old(lfs).cfg.lookahead_size <= 0x1000_0000,
        forall|i: int| 0 <= i < in_use@.len() ==> #[trigger] in_use@[i] < old(lfs).block_count,
        marks_all(old(lfs).lookahead, old(lfs).block_count, in_use@),
        has_flag(old(file).flags, LfsOpenFlags::Inline),
        in_use@.contains(old(file).m.pair[0]),
        movable(*old(lfs), LfsFile { off: old(file).pos, ..*old(file) }),
    ensures
        final(lfs).caches_ok(),
        final(lfs).pcache.block == LFS_BLOCK_NULL,
        same_but_io(*final(lfs), *old(lfs)),
        lookahead_ok(final(lfs).lookahead, final(lfs).cfg.lookahead_size, final(lfs).block_count),
        marks_all(final(lfs).lookahead, final(lfs).block_count, in_use@),
        final(lfs).bd.blocks().len() == old(lfs).bd.blocks().len(),
        same_in_use(final(lfs).bd.blocks(), old(lfs).bd.blocks(), in_use@),
        final(file).id == old(file).id,
        final(file).type_ == old(file).type_,
        final(file).m == old(file).m,
        final(file).ctz == old(file).ctz,
        final(file).pos == old(file).pos,
        final(file).off == old(file).pos,
        r is Err ==> final(file).flags == old(file).flags,
        r is Ok ==> {
            let nb = final(file).block;
            let v = overlay(final(lfs).bd.blocks(), final(file).cache);
            &&& nb < old(lfs).block_count
            &&& !in_use@.contains(nb)
            &&& la_off(final(lfs).lookahead.start, final(lfs).block_count, nb) < final(lfs).lookahead.next
            &&& final(file).flags == (old(file).flags | LfsOpenFlags::Writing.spec_bits()) & !LfsOpenFlags::Inline.spec_bits()
            &&& has_flag(final(file).flags, LfsOpenFlags::Writing)
            &&& !has_flag(final(file).flags, LfsOpenFlags::Inline)
            &&& pcache_ok(final(lfs).cfg, final(lfs).bd.blocks(), final(file).cache)
            &&& (final(file).cache.block == LFS_BLOCK_NULL || final(file).cache.block == nb)
            &&& write_window(final(lfs).cfg, final(file).cache, nb, final(file).off)
            &&& moved_ok(*old(lfs), LfsFile { off: old(file).pos, ..*old(file) }, v[nb as int], old(file).pos as int)
        },
        final(lfs).bd.reads_ok() == old(lfs).bd.reads_ok(),
        final(lfs).bd.writes_ok() == old(lfs).bd.writes_ok(),
        inline_cache_covers(old(file).cache, 0, old(file).pos) && old(lfs).bd.reads_ok() && old(lfs).bd.writes_ok()
            && r is Err ==> r == Err::<(), LfsError>(LfsError::NoSpc) && final(lfs).lookahead.ckpoint == 0,
        old(lfs).bd.reads_ok() && old(lfs).bd.writes_ok() && getread_fits(
            *old(lfs),
            old(file).m,
            spec_mktag(0xfff, 0x1ff, 0),
            spec_mktag(0x201, old(file).id as u32, 0),
            0,
            old(file).pos,
        ) && r is Err ==> (r == Err::<(), LfsError>(LfsError::NoSpc) && final(lfs).lookahead.ckpoint == 0) || (r
            == Err::<(), LfsError>(LfsError::NoEnt) && lookup_absent(
            *old(lfs),
            old(file).m,
            spec_mktag(0xfff, 0x1ff, 0),
            spec_mktag(0x201, old(file).id as u32, 0),
        )),
{
    let ghost file0 = *file;
    file.off = file.pos;
    lfs_alloc_ckpoint(lfs);
    proof {
        assert(*file == LfsFile { off: file0.pos, ..file0 });
        assert(inline_data(*lfs, *file) == inline_data(*old(lfs), file0));
        let gm = spec_mktag(0xfff, 0x1ff, 0);
        let gt = spec_mktag(0x201, file0.id as u32, 0);
        assert(move_shift(*lfs, file.m, gm, gt) == move_shift(*old(lfs), file0.m, gm, gt));
        assert(lookup_absent(*lfs, file.m, gm, gt) == lookup_absent(*old(lfs), file0.m, gm, gt));
        assert(getread_fits(*lfs, file.m, gm, gt, 0, file.off) == getread_fits(*old(lfs), file0.m, gm, gt, 0, file0.pos));
    }
    lfs_file_relocate(lfs, in_use, file)?;
    file.flags = clear_inline(file.flags);
    Ok(())
}

/// Sets the reading flag, keeping every other.
fn set_reading(flags: u32) -> (r: u32)
    ensures
        r == flags | LfsOpenFlags::Reading.spec_bits(),
        has_flag(r, LfsOpenFlags::Reading),
        has_flag(r, LfsOpenFlags::Inline) == has_flag(flags, LfsOpenFlags::Inline),
        has_flag(r, LfsOpenFlags::Writing) == has_flag(flags, LfsOpenFlags::Writing),
        has_flag(flags, LfsOpenFlags::Reading) ==> r == flags,
{
    let r = flags | LfsOpenFlags::Reading.bits();
    assert((flags | 0x040000u32) & 0x040000u32 != 0 && ((flags | 0x040000u32) & 0x100000u32 != 0) == (flags
        & 0x100000u32 != 0) && ((flags | 0x040000u32) & 0x020000u32 != 0) == (flags & 0x020000u32 != 0) && (flags
        & 0x040000u32 != 0 ==> flags | 0x040000u32 == flags)) by (bit_vector);
    r
}

/// The skip-list of a file of `size` bytes ending in `head` is well formed
/// on the device `l`, when the file has any bytes.
pub open spec fn list_holds(l: Seq<Seq<u8>>, block_size: u32, head: u32, size: u32) -> bool {
    size > 0 ==> exists|c: Seq<u32>|
        ctz_chain_ok(l, c, ctz_index_spec(block_size, (size - 1) as u32).0 as int) && #[trigger] c[ctz_index_spec(
            block_size,
            (size - 1) as u32,
        ).0 as int] == head
}

/// Searching a well-formed skip-list for a byte before its end lands on a
/// block of the device.
pub proof fn lemma_walk_on_device(l: Seq<Seq<u8>>, chain: Seq<u32>, block_size: u32, size: u32, pos: u32)
    requires
        block_size >= 128,
        0 < size,
        pos < size,
        ctz_chain_ok(l, chain, ctz_index_spec(block_size, (size - 1) as u32).0 as int),
    ensures
        ctz_walk(
            l,
            chain[ctz_index_spec(block_size, (size - 1) as u32).0 as int],
            ctz_index_spec(block_size, (size - 1) as u32).0,
            ctz_index_spec(block_size, pos).0,
        ) < l.len(),
{
    let last = ctz_index_spec(block_size, (size - 1) as u32).0;
    lemma_ctz_byte_in_chain(l, chain, block_size, size, pos);
    lemma_ctz_index_layout(block_size, (size - 1) as u32);
    lemma_ctz_find_chain(l, chain, last, ctz_index_spec(block_size, pos).0);
}

/// Reads up to `size` bytes from `file` at its position, from its inline
/// data or its skip-list, and moves its position past them. A read at or
/// past the end gets nothing; one that would pass the end stops there.
/// Keeps the block and offset it reads at, to go on from there next time.
#[verifier::rlimit(100)]
#[verifier::spinoff_prover]
pub fn lfs_file_flushedread<D: BlockDevice>(lfs: &mut Lfs<D>, file: &mut LfsFile, size: LfsSize) -> (r: Result<Vec<u8>, LfsError>)
    requires
        old(lfs).caches_ok(),
        old(lfs).cfg.block_size >= 128,
        file_ok(*old(lfs), *old(file)),
    ensures
        final(lfs).caches_ok(),
        same_but_rcache(*final(lfs), *old(lfs)),
        file_ok(*final(lfs), *final(file)),
        final(file).id == old(file).id,
        final(file).m == old(file).m,
        final(file).ctz == old(file).ctz,
        final(file).flags == old(file).flags || final(file).flags == (old(file).flags
            | LfsOpenFlags::Reading.spec_bits()),
        has_flag(final(file).flags, LfsOpenFlags::Inline) == has_flag(old(file).flags, LfsOpenFlags::Inline),
        has_flag(final(file).flags, LfsOpenFlags::Writing) == has_flag(old(file).flags, LfsOpenFlags::Writing),
        old(file).pos >= old(file).ctz.size ==> (r matches Ok(v) && v@.len() == 0 && *final(file)
            == *old(file)),
        size == 0 ==> (r matches Ok(v) && v@.len() == 0 && final(file).pos == old(file).pos),
        !has_flag(old(file).flags, LfsOpenFlags::Inline) && old(lfs).bd.reads_ok() && list_holds(
            old(lfs).bd.blocks(),
            old(lfs).cfg.block_size,
            old(file).ctz.head,
            old(file).ctz.size,
        ) ==> r is Ok,
        has_flag(old(file).flags, LfsOpenFlags::Inline) && inline_cache_covers(old(file).cache, 0, old(file).ctz.size)
            ==> (r matches Ok(v) && forall|j: int|
            0 <= j < v@.len() ==> #[trigger] v@[j] == old(file).cache.buffer@[old(file).pos + j]),
        has_flag(old(file).flags, LfsOpenFlags::Inline) && old(lfs).bd.reads_ok() && getread_fits(
            *old(lfs),
            old(file).m,
            spec_mktag(0xfff, 0x1ff, 0),
            spec_mktag(0x201, old(file).id as u32, 0),
            old(file).pos,
            read_len(old(file).pos, old(file).ctz.size, size) as u32,
        ) ==> r is Ok || r == Err::<Vec<u8>, LfsError>(LfsError::NoEnt),
        has_flag(old(file).flags, LfsOpenFlags::Inline) && r == Err::<Vec<u8>, LfsError>(LfsError::NoEnt)
            ==> lookup_absent(*old(lfs), old(file).m, spec_mktag(0xfff, 0x1ff, 0), spec_mktag(0x201, old(file).id as u32, 0)),
        r matches Ok(v) ==> {
            let n = read_len(old(file).pos, old(file).ctz.size, size);
            let data = inline_data(*old(lfs), *old(file));
            &&& v@.len() == n
            &&& final(file).pos == old(file).pos + n
            &&& has_flag(old(file).flags, LfsOpenFlags::Inline) ==> forall|j: int|
                0 <= j < n && old(file).pos + j < data.len() ==> #[trigger] v@[j] == data[old(file).pos + j]
            &&& !has_flag(old(file).flags, LfsOpenFlags::Inline) ==> forall|j: int|
                0 <= j < n ==> #[trigger] v@[j] == ctz_byte(
                    old(lfs).bd.blocks(),
                    old(lfs).cfg.block_size,
                    old(file).ctz.head,
                    old(file).ctz.size,
                    (old(file).pos + j) as u32,
                )
        },
{
    if file.pos >= file.ctz.size {
        return Ok(Vec::new());
    }
    let ghost lfs0 = *lfs;
    let ghost file0 = *file;
    let ghost data = inline_data(*lfs, *file);
    let ghost blocks = lfs.bd.blocks();
    let bs = lfs.cfg.block_size;
    let total = lfs_min(size, file.ctz.size - file.pos);
    let inline = file.flags & LfsOpenFlags::Inline.bits() != 0;
    let ghost has_chain = !inline && lfs.bd.reads_ok() && list_holds(blocks, bs, file.ctz.head, file.ctz.size);
    let ghost last = ctz_index_spec(bs, (file.ctz.size - 1) as u32).0;
    let ghost chain0 = choose|c: Seq<u32>| ctz_chain_ok(blocks, c, last as int) && #[trigger] c[last as int] == file0.ctz.head;
    let mut out: Vec<u8> = Vec::new();
    let mut nsize = total;
    while nsize > 0
        invariant
            lfs.caches_ok(),
            same_but_rcache(*lfs, lfs0),
            lfs0 == *old(lfs),
            file0 == *old(file),
            blocks == lfs.bd.blocks(),
            bs == lfs.cfg.block_size,
            bs >= 128,
            data == inline_data(lfs0, file0),
            inline == has_flag(file0.flags, LfsOpenFlags::Inline),
            file_ok(*lfs, *file),
            file.id == file0.id,
            file.m == file0.m,
            file.ctz == file0.ctz,
            file.flags == file0.flags || (file.flags == (file0.flags | LfsOpenFlags::Reading.spec_bits())
                && has_flag(file.flags, LfsOpenFlags::Reading)),
            has_flag(file.flags, LfsOpenFlags::Inline) == inline,
            has_flag(file.flags, LfsOpenFlags::Writing) == has_flag(file0.flags, LfsOpenFlags::Writing),
            last == ctz_index_spec(bs, (file0.ctz.size - 1) as u32).0,
            file0.ctz.size > 0,
            (!inline && lfs0.bd.reads_ok() && list_holds(blocks, bs, file0.ctz.head, file0.ctz.size)) ==> has_chain,
            has_chain ==> lfs.bd.reads_ok() && ctz_chain_ok(blocks, chain0, last as int) && chain0[last as int]
                == file0.ctz.head,
            inline && inline_cache_covers(file0.cache, 0, file0.ctz.size) ==> {
                &&& file.cache == file0.cache
                &&& *lfs == lfs0
                &&& forall|j: int| 0 <= j < out@.len() ==> #[trigger] out@[j] == file0.cache.buffer@[file0.pos + j]
            },
            total == read_len(file0.pos, file0.ctz.size, size),
            file0.pos <= file.pos,
            file.pos + nsize == file0.pos + total,
            file0.pos + total <= file0.ctz.size,
            out@.len() == file.pos - file0.pos,
            inline ==> forall|j: int|
                0 <= j < out@.len() && file0.pos + j < data.len() ==> #[trigger] out@[j] == data[file0.pos + j],
            !inline ==> forall|j: int|
                0 <= j < out@.len() ==> #[trigger] out@[j] == ctz_byte(
                    blocks,
                    bs,
                    file0.ctz.head,
                    file0.ctz.size,
                    (file0.pos + j) as u32,
                ),
        decreases nsize,
    {
        let ghost before = out@;
        if file.flags & LfsOpenFlags::Reading.bits() == 0 || file.off == bs {
            if !inline {
                let bc = lfs.block_count;
                lfs_ctz_find(
                    &lfs.cfg,
                    &lfs.bd,
                    bc,
                    None,
                    &mut file.cache,
                    file.ctz.head,
                    file.ctz.size,
                    file.pos,
                    &mut file.block,
                    &mut file.off,
                )?;
            } else {
                file.block = LFS_BLOCK_INLINE;
                file.off = file.pos;
            }
            file.flags = set_reading(file.flags);
        }
        let ghost pos = file.pos;
        let ghost idx = ctz_index_spec(bs, pos);
        proof {
            lemma_ctz_index_next(bs, pos);
        }
        let diff = if file.off < bs { lfs_min(nsize, bs - file.off) } else { nsize };
        let v = if inline {
            let gmask = LFS_MKTAG(0xfff, 0x1ff, 0);
            let gtag = LFS_MKTAG(LfsType::InlineStruct.value() as u32, file.id as u32, 0);
            proof {
                assert(gtag == spec_mktag(0x201, file0.id as u32, 0));
                assert(file.off == file.pos);
                assert(lookup_absent(*lfs, file.m, gmask, gtag) == lookup_absent(lfs0, file0.m, gmask, gtag));
                assert(move_shift(*lfs, file.m, gmask, gtag) == move_shift(lfs0, file0.m, gmask, gtag));
            }
            lfs_dir_getread(lfs, &file.m, None, &mut file.cache, bs, gmask, gtag, file.off, diff)?
        } else {
            let bc = lfs.block_count;
            proof {
                if has_chain {
                    lemma_walk_on_device(blocks, chain0, bs, file0.ctz.size, pos);
                }
            }
            lfs_bd_read(&lfs.cfg, &lfs.bd, bc, None, &mut file.cache, bs, file.block, file.off, diff)?
        };
        proof {
            if !inline {
                assert forall|j: int| 0 <= j < diff implies #[trigger] v@[j] == ctz_byte(
                    blocks,
                    bs,
                    file0.ctz.head,
                    file0.ctz.size,
                    (pos + j) as u32,
                ) by {
                    lemma_ctz_index_run(bs, pos, j as u32);
                }
            }
        }
        let mut v = v;
        out.append(&mut v);
        file.pos = file.pos + diff;
        file.off = file.off + diff;
        nsize = nsize - diff;
        proof {
            if !inline && file.off != bs {
                lemma_ctz_index_run(bs, pos, diff);
            }
        }
    }
    Ok(out)
}

} // verus!
