//! The caches of the first version: a read cache of one read unit and a
//! program cache of one prog unit in front of the device, and the search of
//! a file's skip-list through them.
use vstd::prelude::*;
use crate::bd::{append_range, splice, BlockDevice, cache_geometry_ok, device_ok, lemma_divides_trans};
use crate::ctz::{
    ctz_index_spec, ctz_ptr, ctz_skip, ctz_walk, lemma_ctz_index_layout, lemma_ctz_index_small, lfs_index,
    pow2_u32,
};
use crate::defines::{LfsBlock, LfsCache, LfsConfig, LfsError, LfsOff, LfsSize, LFS_BLOCK_NULL};
use crate::util::{
    crc_seq, exp2, lemma_crc_concat, lemma_exp2_monotone, lemma_exp2_pos, lemma_npw2, lfs_crc, lfs_ctz,
    lfs_aligndown, lfs_le32_decode, lfs_min, lfs_npw2, spec_npw2,
};

verus! {

/// A read cache of the first version: one read unit of its block, at a
/// read-aligned offset, as the device holds it.
pub open spec fn v1_rcache_ok(cfg: LfsConfig, blocks: Seq<Seq<u8>>, c: LfsCache) -> bool {
    &&& c.buffer@.len() >= cfg.read_size
    &&& c.block < blocks.len() ==> {
        &&& c.off + cfg.read_size <= cfg.block_size
        &&& forall|k: int| 0 <= k < cfg.read_size ==> #[trigger] c.buffer@[k] == blocks[c.block as int][c.off + k]
    }
}

/// A byte `b` read at `k` of `block`: the device's byte there, or the one a
/// program cache holds there.
pub open spec fn v1_seen(
    blocks: Seq<Seq<u8>>,
    pcache: Option<&LfsCache>,
    prog_size: u32,
    block: u32,
    k: int,
    b: u8,
) -> bool {
    ||| b == blocks[block as int][k]
    ||| (pcache matches Some(p) && p.block == block && p.off <= k < p.off + prog_size && b
        == p.buffer@[k - p.off])
}

/// Reads `size` bytes at `off` in `block`: from the program cache where it
/// holds them, else from the read cache, else straight from the device
/// when the read is aligned and spans whole read units, else through a
/// newly loaded read cache. A straight read may pass over bytes the
/// program cache holds further on; without a program cache the bytes are
/// the device's. A failed load drops the read cache.
pub fn lfs_cache_read<D: BlockDevice>(
    cfg: &LfsConfig,
    bd: &D,
    rcache: &mut LfsCache,
    pcache: Option<&LfsCache>,
    block: LfsBlock,
    off: LfsOff,
    size: LfsSize,
) -> (r: Result<Vec<u8>, LfsError>)
    requires
        cache_geometry_ok(*cfg),
        device_ok(*cfg, bd.blocks()),
        block < bd.blocks().len(),
        off + size <= cfg.block_size,
        v1_rcache_ok(*cfg, bd.blocks(), *old(rcache)),
        pcache matches Some(p) ==> p.buffer@.len() >= cfg.prog_size,
    ensures
        v1_rcache_ok(*cfg, bd.blocks(), *final(rcache)),
        r matches Ok(v) ==> {
            &&& v@.len() == size
            &&& forall|j: int|
                0 <= j < size ==> #[trigger] v1_seen(bd.blocks(), pcache, cfg.prog_size, block, off + j, v@[j])
        },
        pcache is None ==> (r matches Ok(v) ==> v@ == bd.blocks()[block as int].subrange(off as int, off + size)),
        bd.reads_ok() ==> r is Ok,
{
    let ghost blocks = bd.blocks();
    let rs = cfg.read_size;
    let ps = cfg.prog_size;
    proof {
        lemma_divides_trans(rs as int, cfg.cache_size as int, cfg.block_size as int);
        assert(blocks[block as int].len() == cfg.block_size);
    }
    let mut out: Vec<u8> = Vec::new();
    let mut cur = off;
    let mut rem = size;
    while rem > 0
        invariant
            cache_geometry_ok(*cfg),
            cfg.block_size % rs == 0,
            device_ok(*cfg, blocks),
            blocks == bd.blocks(),
            block < blocks.len(),
            blocks[block as int].len() == cfg.block_size,
            rs == cfg.read_size,
            ps == cfg.prog_size,
            v1_rcache_ok(*cfg, blocks, *rcache),
            pcache matches Some(p) ==> p.buffer@.len() >= ps,
            off <= cur,
            cur + rem == off + size,
            off + size <= cfg.block_size,
            out@.len() == cur - off,
            forall|j: int| 0 <= j < cur - off ==> #[trigger] v1_seen(blocks, pcache, ps, block, off + j, out@[j]),
        decreases rem,
    {
        let ghost before = out@;
        if let Some(p) = pcache {
            if p.block == block && cur >= p.off && (cur as u64) < p.off as u64 + ps as u64 {
                let diff = lfs_min(rem, ps - (cur - p.off));
                append_range(&mut out, &p.buffer, (cur - p.off) as usize, (cur - p.off + diff) as usize);
                proof {
                    assert forall|j: int| 0 <= j < cur + diff - off implies #[trigger] v1_seen(
                        blocks,
                        pcache,
                        ps,
                        block,
                        off + j,
                        out@[j],
                    ) by {
                        if j >= cur - off {
                            assert(out@[j] == p.buffer@[cur - p.off + (j - (cur - off))]);
                        } else {
                            assert(out@[j] == before[j]);
                        }
                    }
                }
                cur = cur + diff;
                rem = rem - diff;
                continue;
            }
        }
        if rcache.block == block && cur >= rcache.off && (cur as u64) < rcache.off as u64 + rs as u64 {
            let diff = lfs_min(rem, rs - (cur - rcache.off));
            append_range(&mut out, &rcache.buffer, (cur - rcache.off) as usize, (cur - rcache.off + diff) as usize);
            proof {
                assert forall|j: int| 0 <= j < cur + diff - off implies #[trigger] v1_seen(
                    blocks,
                    pcache,
                    ps,
                    block,
                    off + j,
                    out@[j],
                ) by {
                    if j >= cur - off {
                        let k = cur - rcache.off + (j - (cur - off));
                        assert(out@[j] == rcache.buffer@[k]);
                        assert(rcache.buffer@[k] == blocks[block as int][rcache.off + k]);
                    } else {
                        assert(out@[j] == before[j]);
                    }
                }
            }
            cur = cur + diff;
            rem = rem - diff;
            continue;
        }
        if cur % rs == 0 && rem >= rs {
            let diff = rem - rem % rs;
            let mut v = bd.read(block, cur, diff)?;
            out.append(&mut v);
            proof {
                assert forall|j: int| 0 <= j < cur + diff - off implies #[trigger] v1_seen(
                    blocks,
                    pcache,
                    ps,
                    block,
                    off + j,
                    out@[j],
                ) by {
                    if j >= cur - off {
                        assert(out@[j] == blocks[block as int].subrange(cur as int, cur + diff)[j - (cur - off)]);
                    } else {
                        assert(out@[j] == before[j]);
                    }
                }
            }
            cur = cur + diff;
            rem = rem - diff;
            continue;
        }
        let roff = lfs_aligndown(cur, rs);
        proof {
            assert(roff + rs <= cfg.block_size) by (nonlinear_arith)
                requires
                    roff % rs == 0,
                    roff <= cur,
                    cur < cfg.block_size,
                    cfg.block_size % rs == 0,
                    rs > 0,
            ;
        }
        let loaded = bd.read(block, roff, rs);
        let v = match loaded {
            Ok(v) => v,
            Err(e) => {
                rcache.block = LFS_BLOCK_NULL;
                return Err(e);
            },
        };
        let mut i: u32 = 0;
        while i < rs
            invariant
                i <= rs,
                v@.len() == rs,
                rcache.buffer@.len() >= rs,
                forall|k: int| 0 <= k < i ==> #[trigger] rcache.buffer@[k] == v@[k],
            decreases rs - i,
        {
            rcache.buffer.set(i as usize, v[i as usize]);
            i = i + 1;
        }
        rcache.block = block;
        rcache.off = roff;
        proof {
            assert forall|k: int| 0 <= k < rs implies #[trigger] rcache.buffer@[k] == blocks[rcache.block as int][rcache.off + k] by {
                assert(v@[k] == blocks[block as int].subrange(roff as int, roff + rs)[k]);
            }
        }
        let diff = lfs_min(rem, rs - (cur - roff));
        append_range(&mut out, &rcache.buffer, (cur - roff) as usize, (cur - roff + diff) as usize);
        proof {
            assert forall|j: int| 0 <= j < cur + diff - off implies #[trigger] v1_seen(
                blocks,
                pcache,
                ps,
                block,
                off + j,
                out@[j],
            ) by {
                if j >= cur - off {
                    let k = cur - rcache.off + (j - (cur - off));
                    assert(out@[cur - off + (j - (cur - off))] == rcache.buffer@[k]);
                    assert(rcache.buffer@[k] == blocks[block as int][rcache.off + k]);
                } else {
                    assert(out@[j] == before[j]);
                }
            }
        }
        cur = cur + diff;
        rem = rem - diff;
    }
    proof {
        if pcache is None {
            assert forall|j: int| 0 <= j < size implies #[trigger] out@[j] == blocks[block as int].subrange(
                off as int,
                off + size,
            )[j] by {
                assert(v1_seen(blocks, pcache, ps, block, off + j, out@[j]));
            }
            assert(out@ =~= blocks[block as int].subrange(off as int, off + size));
        }
    }
    Ok(out)
}

/// The `n` bytes at `off` of `block` on the device.
pub open spec fn v1_block_bytes(blocks: Seq<Seq<u8>>, block: u32, off: u32, n: nat) -> Seq<u8> {
    blocks[block as int].subrange(off as int, off + n)
}

/// Whether `data` is what lies at `off` in `block`, reading one byte at a
/// time through the caches.
fn v1_match_bytes<D: BlockDevice>(
    cfg: &LfsConfig,
    bd: &D,
    rcache: &mut LfsCache,
    pcache: Option<&LfsCache>,
    block: LfsBlock,
    off: LfsOff,
    data: &[u8],
) -> (r: Result<bool, LfsError>)
    requires
        cache_geometry_ok(*cfg),
        device_ok(*cfg, bd.blocks()),
        block < bd.blocks().len(),
        off + data@.len() <= cfg.block_size,
        v1_rcache_ok(*cfg, bd.blocks(), *old(rcache)),
        pcache matches Some(p) ==> p.buffer@.len() >= cfg.prog_size,
    ensures
        v1_rcache_ok(*cfg, bd.blocks(), *final(rcache)),
        r == Ok::<bool, LfsError>(true) ==> forall|j: int|
            0 <= j < data@.len() ==> #[trigger] v1_seen(bd.blocks(), pcache, cfg.prog_size, block, off + j, data@[j]),
        pcache is None ==> (r matches Ok(b) ==> b == (v1_block_bytes(bd.blocks(), block, off, data@.len()) == data@)),
        bd.reads_ok() ==> r is Ok,
{
    let ghost blocks = bd.blocks();
    let n = data.len();
    let mut i: usize = 0;
    while i < n
        invariant
            cache_geometry_ok(*cfg),
            device_ok(*cfg, blocks),
            blocks == bd.blocks(),
            block < blocks.len(),
            off + n <= cfg.block_size,
            n == data@.len(),
            i <= n,
            v1_rcache_ok(*cfg, blocks, *rcache),
            pcache matches Some(p) ==> p.buffer@.len() >= cfg.prog_size,
            forall|j: int| 0 <= j < i ==> #[trigger] v1_seen(blocks, pcache, cfg.prog_size, block, off + j, data@[j]),
            pcache is None ==> forall|j: int| 0 <= j < i ==> #[trigger] blocks[block as int][off + j] == data@[j],
        decreases n - i,
    {
        let c = lfs_cache_read(cfg, bd, rcache, pcache, block, off + i as u32, 1)?;
        if c[0] != data[i] {
            proof {
                if pcache is None {
                    assert(c@[0] == blocks[block as int].subrange(off + i, off + i + 1)[0]);
                    assert(v1_block_bytes(blocks, block, off, n as nat)[i as int] != data@[i as int]);
                }
            }
            return Ok(false);
        }
        proof {
            assert(v1_seen(blocks, pcache, cfg.prog_size, block, off + i + 0, c@[0]));
            if pcache is None {
                assert(c@[0] == blocks[block as int].subrange(off + i, off + i + 1)[0]);
            }
        }
        i = i + 1;
    }
    proof {
        if pcache is None {
            assert forall|j: int| 0 <= j < n implies #[trigger] v1_block_bytes(blocks, block, off, n as nat)[j]
                == data@[j] by {
                assert(blocks[block as int][off + j] == data@[j]);
            }
            assert(v1_block_bytes(blocks, block, off, n as nat) =~= data@);
        }
    }
    Ok(true)
}

/// Compares `data` with the bytes at `off` in `block`, read one at a time
/// through the caches: `true` when all agree. Without a program cache the
/// bytes are the device's.
pub fn lfs_cache_cmp<D: BlockDevice>(
    cfg: &LfsConfig,
    bd: &D,
    rcache: &mut LfsCache,
    pcache: Option<&LfsCache>,
    block: LfsBlock,
    off: LfsOff,
    data: &[u8],
) -> (r: Result<bool, LfsError>)
    requires
        cache_geometry_ok(*cfg),
        device_ok(*cfg, bd.blocks()),
        block < bd.blocks().len(),
        off + data@.len() <= cfg.block_size,
        v1_rcache_ok(*cfg, bd.blocks(), *old(rcache)),
        pcache matches Some(p) ==> p.buffer@.len() >= cfg.prog_size,
    ensures
        v1_rcache_ok(*cfg, bd.blocks(), *final(rcache)),
        r == Ok::<bool, LfsError>(true) ==> forall|j: int|
            0 <= j < data@.len() ==> #[trigger] v1_seen(bd.blocks(), pcache, cfg.prog_size, block, off + j, data@[j]),
        pcache is None ==> (r matches Ok(b) ==> b == (v1_block_bytes(bd.blocks(), block, off, data@.len()) == data@)),
        bd.reads_ok() ==> r is Ok,
{
    v1_match_bytes(cfg, bd, rcache, pcache, block, off, data)
}

/// Updates `crc` with `size` bytes at `off` in `block`, read one at a time
/// through the caches. Without a program cache the bytes are the device's.
pub fn lfs_cache_crc<D: BlockDevice>(
    cfg: &LfsConfig,
    bd: &D,
    rcache: &mut LfsCache,
    pcache: Option<&LfsCache>,
    block: LfsBlock,
    off: LfsOff,
    size: LfsSize,
    crc: &mut u32,
) -> (r: Result<(), LfsError>)
    requires
        cache_geometry_ok(*cfg),
        device_ok(*cfg, bd.blocks()),
        block < bd.blocks().len(),
        off + size <= cfg.block_size,
        v1_rcache_ok(*cfg, bd.blocks(), *old(rcache)),
        pcache matches Some(p) ==> p.buffer@.len() >= cfg.prog_size,
    ensures
        v1_rcache_ok(*cfg, bd.blocks(), *final(rcache)),
        pcache is None && r is Ok ==> *final(crc) == crc_seq(
            *old(crc),
            bd.blocks()[block as int].subrange(off as int, off + size),
        ),
        bd.reads_ok() ==> r is Ok,
{
    let ghost blocks = bd.blocks();
    let ghost c0 = *crc;
    let mut i: u32 = 0;
    while i < size
        invariant
            cache_geometry_ok(*cfg),
            device_ok(*cfg, blocks),
            blocks == bd.blocks(),
            block < blocks.len(),
            blocks[block as int].len() == cfg.block_size,
            off + size <= cfg.block_size,
            i <= size,
            v1_rcache_ok(*cfg, blocks, *rcache),
            pcache matches Some(p) ==> p.buffer@.len() >= cfg.prog_size,
            c0 == *old(crc),
            pcache is None ==> *crc == crc_seq(c0, blocks[block as int].subrange(off as int, off + i)),
        decreases size - i,
    {
        let c = lfs_cache_read(cfg, bd, rcache, pcache, block, off + i, 1)?;
        let ghost prev = *crc;
        *crc = lfs_crc(*crc, c.as_slice());
        proof {
            if pcache is None {
                lemma_crc_concat(c0, blocks[block as int].subrange(off as int, off + i), c@);
                assert(blocks[block as int].subrange(off as int, off + i) + c@ =~= blocks[block as int].subrange(
                    off as int,
                    off + i + 1,
                ));
            }
        }
        i = i + 1;
    }
    Ok(())
}

/// Finds, in a file of the first version of `size` bytes whose skip-list
/// ends in `head`, the block holding byte `pos` and the offset of that byte
/// in it, reading pointers through the caches. An empty file has no block.
/// A pointer naming no block of the device is reported as corruption.
pub fn lfs_index_find<D: BlockDevice>(
    cfg: &LfsConfig,
    bd: &D,
    rcache: &mut LfsCache,
    pcache: Option<&LfsCache>,
    head: LfsBlock,
    size: LfsSize,
    pos: LfsSize,
) -> (r: Result<(LfsBlock, LfsOff), LfsError>)
    requires
        cache_geometry_ok(*cfg),
        cfg.block_size >= 128,
        device_ok(*cfg, bd.blocks()),
        cfg.block_count == bd.blocks().len(),
        v1_rcache_ok(*cfg, bd.blocks(), *old(rcache)),
        pcache matches Some(p) ==> p.buffer@.len() >= cfg.prog_size,
    ensures
        v1_rcache_ok(*cfg, bd.blocks(), *final(rcache)),
        size == 0 ==> r == Ok::<(LfsBlock, LfsOff), LfsError>((LFS_BLOCK_NULL, 0)),
        size > 0 && r is Ok ==> r->Ok_0.1 == ctz_index_spec(cfg.block_size, pos).1,
        pcache is None && size > 0 && r is Ok ==> r->Ok_0.0 == ctz_walk(
            bd.blocks(),
            head,
            ctz_index_spec(cfg.block_size, (size - 1) as u32).0,
            ctz_index_spec(cfg.block_size, pos).0,
        ),
{
    if size == 0 {
        return Ok((LFS_BLOCK_NULL, 0));
    }
    let ghost blocks = bd.blocks();
    let mut last = size - 1;
    let mut current = lfs_index(cfg, &mut last);
    let mut tpos = pos;
    let target = lfs_index(cfg, &mut tpos);
    let words = cfg.block_size / 4;
    let ghost cur0 = current;
    let mut h = head;
    proof {
        lemma_ctz_index_layout(cfg.block_size, (size - 1) as u32);
    }
    while current > target
        invariant
            cache_geometry_ok(*cfg),
            cfg.block_size >= 128,
            device_ok(*cfg, blocks),
            blocks == bd.blocks(),
            cfg.block_count == blocks.len(),
            v1_rcache_ok(*cfg, blocks, *rcache),
            pcache matches Some(p) ==> p.buffer@.len() >= cfg.prog_size,
            words == cfg.block_size / 4,
            size > 0,
            current <= cur0,
            cur0 < 0x400_0000,
            pcache is None ==> ctz_walk(blocks, h, current, target) == ctz_walk(blocks, head, cur0, target),
        decreases current,
    {
        let x = current - target + 1;
        let a = lfs_npw2(x);
        proof {
            assert(exp2(0) == 1);
            lemma_ctz_index_small(current);
        }
        let c = lfs_ctz(current);
        let maxp = lfs_min(c + 1, words - 1);
        let k = lfs_min(a - 1, maxp - 1);
        proof {
            lemma_npw2(x);
            lemma_exp2_monotone(k as nat, (a - 1) as nat);
            lemma_exp2_pos(k as nat);
            assert(k == ctz_skip(current, target));
        }
        let step = pow2_u32(k);
        if h >= cfg.block_count {
            return Err(LfsError::Corrupt);
        }
        let dat = lfs_cache_read(cfg, bd, rcache, pcache, h, 4 * k, 4)?;
        let nh = lfs_le32_decode(dat.as_slice(), 0);
        proof {
            assert(dat@.subrange(0, 4) =~= dat@);
            if pcache is None {
                assert(nh == ctz_ptr(blocks, h, k as int));
            }
        }
        h = nh;
        current = current - step;
    }
    Ok((h, tpos))
}

/// A program cache of the first version: a buffer of one prog unit and,
/// when it names a block, a prog-aligned unit within that block.
pub open spec fn v1_pcache_ok(cfg: LfsConfig, blocks: Seq<Seq<u8>>, p: LfsCache) -> bool {
    &&& p.buffer@.len() >= cfg.prog_size
    &&& p.block == LFS_BLOCK_NULL || p.block < blocks.len()
    &&& p.block < blocks.len() ==> p.off % cfg.prog_size == 0 && p.off + cfg.prog_size <= cfg.block_size
}

/// The device as it will be once a program cache of the first version is
/// written out: its whole unit at its offset in its block.
pub open spec fn v1_view(blocks: Seq<Seq<u8>>, p: LfsCache, prog_size: u32) -> Seq<Seq<u8>> {
    if p.block < blocks.len() {
        blocks.update(
            p.block as int,
            splice(blocks[p.block as int], p.off as int, p.buffer@.subrange(0, prog_size as int)),
        )
    } else {
        blocks
    }
}

/// Writes out the unit the program cache of the first version holds, reads
/// it back to check it when `validate` is set, and empties the cache. A
/// read cache of that block is dropped first, so that the check reads the
/// device.
pub fn lfs_cache_flush<D: BlockDevice>(
    cfg: &LfsConfig,
    bd: &mut D,
    pcache: &mut LfsCache,
    rcache: &mut LfsCache,
    validate: bool,
) -> (r: Result<(), LfsError>)
    requires
        cache_geometry_ok(*cfg),
        device_ok(*cfg, old(bd).blocks()),
        v1_pcache_ok(*cfg, old(bd).blocks(), *old(pcache)),
        v1_rcache_ok(*cfg, old(bd).blocks(), *old(rcache)),
    ensures
        device_ok(*cfg, final(bd).blocks()),
        final(bd).blocks().len() == old(bd).blocks().len(),
        forall|i: int|
            0 <= i < old(bd).blocks().len() && i != old(pcache).block ==> #[trigger] final(bd).blocks()[i]
                == old(bd).blocks()[i],
        v1_rcache_ok(*cfg, final(bd).blocks(), *final(rcache)),
        final(pcache).buffer == old(pcache).buffer,
        final(pcache).off == old(pcache).off,
        old(pcache).block == LFS_BLOCK_NULL ==> {
            &&& r is Ok
            &&& *final(pcache) == *old(pcache)
            &&& final(bd).blocks() == old(bd).blocks()
            &&& *final(rcache) == *old(rcache)
        },
        r is Ok ==> {
            &&& final(pcache).block == LFS_BLOCK_NULL
            &&& final(bd).blocks() == v1_view(old(bd).blocks(), *old(pcache), cfg.prog_size)
        },
{
    if pcache.block == LFS_BLOCK_NULL {
        return Ok(());
    }
    let ghost b0 = bd.blocks();
    let ps = cfg.prog_size as usize;
    let pblock = pcache.block;
    let poff = pcache.off;
    if rcache.block == pblock {
        rcache.block = LFS_BLOCK_NULL;
    }
    proof {
        assert(b0[pblock as int].len() == cfg.block_size);
    }
    let unit = vstd::slice::slice_subrange(pcache.buffer.as_slice(), 0, ps);
    let pr = bd.prog(pblock, poff, unit);
    proof {
        assert forall|i: int| 0 <= i < bd.blocks().len() implies #[trigger] bd.blocks()[i].len() == cfg.block_size by {
            if i != pblock {
                assert(bd.blocks()[i] == b0[i]);
            }
        }
        assert forall|k: int| 0 <= k < cfg.read_size && rcache.block < bd.blocks().len() implies
            #[trigger] rcache.buffer@[k] == bd.blocks()[rcache.block as int][rcache.off + k] by {
            assert(bd.blocks()[rcache.block as int] == b0[rcache.block as int]);
        }
    }
    pr?;
    if validate {
        let same = v1_match_bytes(cfg, bd, rcache, None, pblock, poff, unit)?;
        if !same {
            return Err(LfsError::Corrupt);
        }
    }
    pcache.block = LFS_BLOCK_NULL;
    proof {
        assert(bd.blocks() =~= v1_view(b0, *old(pcache), cfg.prog_size));
    }
    Ok(())
}

/// Where the bytes a program has not yet settled end: the end of the
/// unit the cache holds, or where the program has got to.
pub open spec fn v1_pending_end(p: LfsCache, block: u32, cur: u32, prog_size: u32) -> int {
    if p.block == block {
        p.off + prog_size
    } else {
        cur as int
    }
}

/// A byte of the device as it will be once the program cache is written out.
pub proof fn lemma_v1_view_index(cfg: LfsConfig, blocks: Seq<Seq<u8>>, p: LfsCache, b: int, k: int)
    requires
        device_ok(cfg, blocks),
        v1_pcache_ok(cfg, blocks, p),
        0 <= b < blocks.len(),
        0 <= k < cfg.block_size,
    ensures
        v1_view(blocks, p, cfg.prog_size).len() == blocks.len(),
        v1_view(blocks, p, cfg.prog_size)[b].len() == cfg.block_size,
        v1_view(blocks, p, cfg.prog_size)[b][k] == (if b == p.block && p.off <= k < p.off + cfg.prog_size {
            p.buffer@[k - p.off]
        } else {
            blocks[b][k]
        }),
{
    assert(blocks[b].len() == cfg.block_size);
}

/// The bytes of `block` in `v` that a program of `len` bytes at `off`
/// leaves as they were in `u`: those outside the prog units it touches.
pub open spec fn v1_outside_units(u: Seq<u8>, v: Seq<u8>, prog_size: u32, off: u32, len: nat) -> bool {
    forall|k: int|
        0 <= k < v.len() && (k < off - off % prog_size || k >= v1_unit_end(off + len, prog_size as int))
            ==> #[trigger] v[k] == u[k]
}

/// `e` rounded up to a multiple of `unit`.
pub open spec fn v1_unit_end(e: int, unit: int) -> int {
    e + (unit - e % unit) % unit
}

/// Programs `data` at `off` in `block` through the program cache of the
/// first version: into the cache where its unit covers the next byte,
/// writing the cache out each time its unit fills; straight to the device
/// for whole aligned units; else starting a new unit in the cache. Checks
/// what reaches the device when `validate` is set. Seen as the device will
/// be once the cache is written out, `data` is at `off`, and every byte
/// outside the prog units the program touches is as it was.
#[verifier::rlimit(40)]
pub fn lfs_cache_prog<D: BlockDevice>(
    cfg: &LfsConfig,
    bd: &mut D,
    pcache: &mut LfsCache,
    rcache: &mut LfsCache,
    validate: bool,
    block: LfsBlock,
    off: LfsOff,
    data: &[u8],
) -> (r: Result<(), LfsError>)
    requires
        cache_geometry_ok(*cfg),
        device_ok(*cfg, old(bd).blocks()),
        block < old(bd).blocks().len(),
        off + data@.len() <= cfg.block_size,
        v1_pcache_ok(*cfg, old(bd).blocks(), *old(pcache)),
        v1_rcache_ok(*cfg, old(bd).blocks(), *old(rcache)),
        data@.len() > 0 ==> (old(pcache).block == LFS_BLOCK_NULL || (old(pcache).block == block
            && old(pcache).off <= off < old(pcache).off + cfg.prog_size)),
    ensures
        device_ok(*cfg, final(bd).blocks()),
        final(bd).blocks().len() == old(bd).blocks().len(),
        forall|i: int|
            0 <= i < old(bd).blocks().len() && i != block ==> #[trigger] final(bd).blocks()[i]
                == old(bd).blocks()[i],
        v1_rcache_ok(*cfg, final(bd).blocks(), *final(rcache)),
        data@.len() == 0 ==> r is Ok && *final(pcache) == *old(pcache) && final(bd).blocks() == old(bd).blocks()
            && *final(rcache) == *old(rcache),
        r is Ok ==> {
            let u = v1_view(old(bd).blocks(), *old(pcache), cfg.prog_size);
            let v = v1_view(final(bd).blocks(), *final(pcache), cfg.prog_size);
            &&& v1_pcache_ok(*cfg, final(bd).blocks(), *final(pcache))
            &&& data@.len() > 0 ==> (final(pcache).block == LFS_BLOCK_NULL || final(pcache).block == block)
            &&& v.len() == u.len()
            &&& forall|i: int| 0 <= i < u.len() && i != block ==> #[trigger] v[i] == u[i]
            &&& v[block as int].len() == cfg.block_size
            &&& forall|j: int| 0 <= j < data@.len() ==> #[trigger] v[block as int][off + j] == data@[j]
            &&& v1_outside_units(u[block as int], v[block as int], cfg.prog_size, off, data@.len())
        },
{
    let ghost b0 = bd.blocks();
    let ghost p0 = *pcache;
    let ghost u = v1_view(b0, p0, cfg.prog_size);
    let ps = cfg.prog_size;
    let len = data.len();
    proof {
        assert(ps <= cfg.cache_size) by (nonlinear_arith)
            requires
                cfg.cache_size % ps == 0,
                cfg.cache_size > 0,
                ps > 0,
        ;
        lemma_divides_trans(ps as int, cfg.cache_size as int, cfg.block_size as int);
        assert(b0[block as int].len() == cfg.block_size);
        if p0.block < b0.len() {
            assert(b0[p0.block as int].len() == cfg.block_size);
        }
        assert(u[block as int].len() == cfg.block_size);
    }
    if len == 0 {
        return Ok(());
    }
    let mut cur = off;
    let mut done: usize = 0;
    while done < len
        invariant
            cache_geometry_ok(*cfg),
            cfg.block_size % ps == 0,
            ps == cfg.prog_size,
            0 < ps <= cfg.cache_size,
            device_ok(*cfg, bd.blocks()),
            b0 == old(bd).blocks(),
            p0 == *old(pcache),
            u == v1_view(b0, p0, ps),
            bd.blocks().len() == b0.len(),
            block < b0.len(),
            forall|i: int| 0 <= i < b0.len() && i != block ==> #[trigger] bd.blocks()[i] == b0[i],
            v1_pcache_ok(*cfg, bd.blocks(), *pcache),
            v1_rcache_ok(*cfg, bd.blocks(), *rcache),
            pcache.block == LFS_BLOCK_NULL || pcache.block == block,
            done > 0 && pcache.block == block ==> pcache.off < cur < pcache.off + ps,
            done > 0 && pcache.block == LFS_BLOCK_NULL ==> cur % ps == 0,
            done == 0 ==> *pcache == p0 && bd.blocks() == b0,
            p0.block == LFS_BLOCK_NULL || (p0.block == block && p0.off <= off < p0.off + ps),
            len == data@.len(),
            len > 0,
            off + len <= cfg.block_size,
            done <= len,
            cur == off + done,
            u[block as int].len() == cfg.block_size,
            ({
                let v = v1_view(bd.blocks(), *pcache, ps);
                &&& v.len() == u.len()
                &&& forall|i: int| 0 <= i < u.len() && i != block ==> #[trigger] v[i] == u[i]
                &&& v[block as int].len() == cfg.block_size
                &&& forall|j: int| 0 <= j < done ==> #[trigger] v[block as int][off + j] == data@[j]
                &&& forall|k: int|
                    0 <= k < cfg.block_size && (k < off - off % ps || k >= v1_pending_end(*pcache, block, cur, ps))
                        ==> #[trigger] v[block as int][k] == u[block as int][k]
            }),
        decreases len - done,
    {
        let ghost vb = v1_view(bd.blocks(), *pcache, ps);
        let ghost pb = *pcache;
        let ghost bb = bd.blocks();
        if !(pcache.block == block && cur >= pcache.off && (cur as u64) < pcache.off as u64 + ps as u64) {
            let rem = (len - done) as u32;
            if cur % ps == 0 && rem >= ps {
                let diff = rem - rem % ps;
                if rcache.block == block {
                    rcache.block = LFS_BLOCK_NULL;
                }
                let chunk = vstd::slice::slice_subrange(data, done, done + diff as usize);
                proof {
                    assert(bb[block as int].len() == cfg.block_size);
                }
                let pr = bd.prog(block, cur, chunk);
                proof {
                    assert forall|i: int| 0 <= i < bd.blocks().len() implies #[trigger] bd.blocks()[i].len()
                        == cfg.block_size by {
                        if i != block {
                            assert(bd.blocks()[i] == bb[i]);
                        }
                    }
                    assert forall|k: int| 0 <= k < cfg.read_size && rcache.block < bd.blocks().len() implies
                        #[trigger] rcache.buffer@[k] == bd.blocks()[rcache.block as int][rcache.off + k] by {
                        assert(bd.blocks()[rcache.block as int] == bb[rcache.block as int]);
                    }
                }
                pr?;
                if validate {
                    let same = v1_match_bytes(cfg, bd, rcache, None, block, cur, chunk)?;
                    if !same {
                        return Err(LfsError::Corrupt);
                    }
                }
                proof {
                    let v = v1_view(bd.blocks(), *pcache, ps);
                    assert(v == bd.blocks());
                    assert(vb == bb);
                    assert forall|j: int| 0 <= j < done + diff implies #[trigger] v[block as int][off + j] == data@[j] by {
                        if j >= done {
                            assert(v[block as int][off + j] == chunk@[j - done]);
                        }
                    }
                    assert(diff % ps == 0) by (nonlinear_arith)
                        requires
                            diff == rem - rem % ps,
                            ps > 0,
                    ;
                    vstd::arithmetic::div_mod::lemma_mod_adds(cur as int, diff as int, ps as int);
                }
                cur = cur + diff;
                done = done + diff as usize;
                continue;
            }
            pcache.block = block;
            pcache.off = lfs_aligndown(cur, ps);
            proof {
                assert(pcache.off + ps <= cfg.block_size) by (nonlinear_arith)
                    requires
                        pcache.off % ps == 0,
                        pcache.off <= cur,
                        cur < cfg.block_size,
                        cfg.block_size % ps == 0,
                        ps > 0,
                ;
                assert(pb.block == LFS_BLOCK_NULL);
                assert forall|k: int|
                    0 <= k < cfg.block_size && (k < off - off % ps || k >= v1_pending_end(*pcache, block, cur, ps))
                        implies #[trigger] v1_view(bd.blocks(), *pcache, ps)[block as int][k] == u[block as int][k] by {
                    lemma_v1_view_index(*cfg, bd.blocks(), *pcache, block as int, k);
                    lemma_v1_view_index(*cfg, bd.blocks(), pb, block as int, k);
                    if done == 0 {
                        assert(pcache.off == off - off % ps);
                    }
                }
                assert forall|j: int| 0 <= j < done implies #[trigger] v1_view(bd.blocks(), *pcache, ps)[block as int][off + j]
                    == data@[j] by {
                    lemma_v1_view_index(*cfg, bd.blocks(), *pcache, block as int, off + j);
                    lemma_v1_view_index(*cfg, bd.blocks(), pb, block as int, off + j);
                }
                assert forall|i: int| 0 <= i < u.len() && i != block implies #[trigger] v1_view(bd.blocks(), *pcache, ps)[i]
                    == u[i] by {
                    assert(v1_view(bd.blocks(), *pcache, ps)[i] == bd.blocks()[i]);
                }
            }
        }
        let ghost vw = v1_view(bd.blocks(), *pcache, ps);
        let ghost pw = *pcache;
        let base = (cur - pcache.off) as usize;
        let room = ps - (cur - pcache.off);
        let rem = (len - done) as u32;
        let diff = if rem < room { rem } else { room };
        let mut j: usize = 0;
        while j < diff as usize
            invariant
                j <= diff,
                base + diff <= ps,
                ps <= pcache.buffer@.len(),
                done + diff <= len,
                len == data@.len(),
                pcache.buffer@.len() == pw.buffer@.len(),
                pcache.block == pw.block,
                pcache.off == pw.off,
                pcache.size == pw.size,
                forall|i: int| 0 <= i < pw.buffer@.len() ==> #[trigger] pcache.buffer@[i] == (if base <= i < base + j {
                    data@[done + i - base]
                } else {
                    pw.buffer@[i]
                }),
            decreases diff - j,
        {
            pcache.buffer.set(base + j, data[done + j]);
            j = j + 1;
        }
        proof {
            let vn = v1_view(bd.blocks(), *pcache, ps);
            assert forall|k: int| 0 <= k < cfg.block_size implies #[trigger] vn[block as int][k] == (if cur <= k < cur
                + diff {
                data@[done + k - cur]
            } else {
                vw[block as int][k]
            }) by {
                lemma_v1_view_index(*cfg, bd.blocks(), *pcache, block as int, k);
                lemma_v1_view_index(*cfg, bd.blocks(), pw, block as int, k);
            }
            assert forall|i: int| 0 <= i < u.len() && i != block implies #[trigger] vn[i] == vw[i] by {
                assert(vn[i] == bd.blocks()[i]);
            }
        }
        proof {
            assert(diff > 0);
            assert(pcache.off % ps == 0);
            assert(cur + diff <= pcache.off + ps);
            assert((cur + diff) % (ps as int) != 0 ==> cur + diff < pcache.off + ps) by (nonlinear_arith)
                requires
                    pcache.off % ps == 0,
                    cur + diff <= pcache.off + ps,
                    ps > 0,
            ;
            assert((cur + diff) % (ps as int) == 0 ==> cur + diff == pcache.off + ps) by (nonlinear_arith)
                requires
                    pcache.off % ps == 0,
                    pcache.off <= cur,
                    cur + diff <= pcache.off + ps,
                    diff > 0,
                    ps > 0,
            ;
        }
        cur = cur + diff;
        done = done + diff as usize;
        if cur % ps == 0 {
            let ghost pf = *pcache;
            let ghost bf = bd.blocks();
            proof {
                assert(cur == pf.off + ps);
            }
            lfs_cache_flush(cfg, bd, pcache, rcache, validate)?;
            proof {
                assert(bd.blocks() == v1_view(bf, pf, ps));
                assert(v1_view(bd.blocks(), *pcache, ps) == bd.blocks());
                assert forall|i: int| 0 <= i < b0.len() && i != block implies #[trigger] bd.blocks()[i] == b0[i] by {
                    assert(bf[i] == b0[i]);
                }
            }
        }
    }
    proof {
        let v = v1_view(bd.blocks(), *pcache, ps);
        let e = v1_unit_end(off + len, ps as int);
        if pcache.block == block {
            assert(pcache.off + ps == e) by (nonlinear_arith)
                requires
                    pcache.off % ps == 0,
                    pcache.off < off + len < pcache.off + ps,
                    ps > 0,
                    e == v1_unit_end(off + len, ps as int),
            {
                assert((off + len) % (ps as int) == off + len - pcache.off) by (nonlinear_arith)
                    requires
                        pcache.off % ps == 0,
                        pcache.off < off + len < pcache.off + ps,
                        ps > 0,
                ;
            }
        } else {
            assert(e >= off + len) by (nonlinear_arith)
                requires
                    ps > 0,
                    e == v1_unit_end(off + len, ps as int),
            ;
        }
    }
    Ok(())
}

} // verus!
