//! Commits to a metadata block: tags and their data appended to its log,
//! each tag stored big-endian and xored with the one before, under a
//! running checksum.
use vstd::prelude::*;
use crate::bd::{
    BlockDevice, lemma_contiguous_gap, lemma_overlay_index, lemma_prog_expect_splice,
    lemma_aligned_gap, lemma_divides_trans, lemma_round_down, lemma_splice_concat, lfs_bd_crc,
    lfs_bd_prog, lfs_bd_sync, lemma_flushed_keeps, prog_expect, prog_gap_start, prog_window,
    lfs_bd_read, lfs_cache_drop, overlay, pcache_ok, prog_contiguous, splice,
};
use crate::defines::{
    LfsBlock, LfsCommit, LfsConfig, LfsDiskoff, LfsError, LfsFcrc, LfsMdir, LfsSize, LfsTag, LFS_BLOCK_NULL,
};
use crate::allocator::{lfs_alloc, lookahead_ok, marks_all};
use crate::fs::lfs_fs_disk_version;
use crate::fs::Lfs;
use crate::tag::{
    lfs_tag_chunk, lfs_tag_dsize, lfs_tag_id, lfs_tag_isdelete, lfs_tag_type1, spec_tag_dsize, spec_tag_id,
    spec_tag_isdelete, LFS_MKTAG,
};
use crate::mdir::{splice_shift, wadd};
use crate::util::{
    be32_bytes, be32_of, crc_seq, lemma_be32_roundtrip, lemma_crc_concat, lfs_be32_encode, lfs_crc,
    le32_bytes, le32_of, lemma_crc_residue, lfs_le32_decode, lfs_le32_encode, lfs_min,
};

verus! {

/// Every part of the filesystem but the device and its caches is the same.
pub open spec fn same_but_caches<D: BlockDevice>(a: Lfs<D>, b: Lfs<D>) -> bool {
    &&& a.cfg == b.cfg
    &&& a.root == b.root
    &&& a.mlist == b.mlist
    &&& a.seed == b.seed
    &&& a.gstate == b.gstate
    &&& a.gdisk == b.gdisk
    &&& a.gdelta == b.gdelta
    &&& a.lookahead == b.lookahead
    &&& a.block_count == b.block_count
    &&& a.name_max == b.name_max
    &&& a.file_max == b.file_max
    &&& a.attr_max == b.attr_max
    &&& a.inline_max == b.inline_max
}

/// The device as the filesystem sees it: its blocks with the pending
/// program cache written over them.
pub open spec fn view_of<D: BlockDevice>(lfs: Lfs<D>) -> Seq<Seq<u8>> {
    overlay(lfs.bd.blocks(), lfs.pcache)
}

/// Appends `buffer` to the commit: programs it at the commit's offset and
/// takes it into the commit's checksum.
pub fn lfs_dir_commitprog<D: BlockDevice>(lfs: &mut Lfs<D>, commit: &mut LfsCommit, buffer: &[u8]) -> (r: Result<(), LfsError>)
    requires
        old(lfs).caches_ok(),
        old(commit).block < old(lfs).block_count,
        old(commit).off + buffer@.len() <= old(lfs).cfg.block_size,
        buffer@.len() > 0 ==> prog_window(old(lfs).cfg, old(lfs).pcache, old(commit).block, old(commit).off),
    ensures
        same_but_caches(*final(lfs), *old(lfs)),
        final(lfs).bd.blocks().len() == old(lfs).bd.blocks().len(),
        forall|i: int|
            0 <= i < old(lfs).bd.blocks().len() && i != old(commit).block ==> #[trigger] final(lfs).bd.blocks()[i]
                == old(lfs).bd.blocks()[i],
        r is Ok ==> {
            &&& final(lfs).caches_ok()
            &&& *final(commit) == (LfsCommit {
                off: (old(commit).off + buffer@.len()) as u32,
                crc: crc_seq(old(commit).crc, buffer@),
                ..*old(commit)
            })
            &&& view_of(*final(lfs)) == view_of(*old(lfs)).update(
                old(commit).block as int,
                prog_expect(
                    view_of(*old(lfs))[old(commit).block as int],
                    prog_gap_start(old(lfs).pcache, old(commit).block, old(commit).off, old(lfs).cfg.prog_size),
                    old(commit).off as int,
                    buffer@,
                ),
            )
            &&& buffer@.len() > 0 ==> prog_window(
                final(lfs).cfg,
                final(lfs).pcache,
                old(commit).block,
                (old(commit).off + buffer@.len()) as u32,
            )
            &&& prog_contiguous(old(lfs).cfg, old(lfs).pcache, old(commit).block, old(commit).off) ==> {
                &&& view_of(*final(lfs)) == view_of(*old(lfs)).update(
                    old(commit).block as int,
                    splice(view_of(*old(lfs))[old(commit).block as int], old(commit).off as int, buffer@),
                )
                &&& prog_contiguous(
                    final(lfs).cfg,
                    final(lfs).pcache,
                    old(commit).block,
                    (old(commit).off + buffer@.len()) as u32,
                )
            }
            &&& buffer@.len() == 0 ==> final(lfs).pcache == old(lfs).pcache
            &&& (final(lfs).pcache.block == LFS_BLOCK_NULL || final(lfs).pcache.block == old(commit).block
                || final(lfs).pcache == old(lfs).pcache)
        },
        final(lfs).bd.reads_ok() == old(lfs).bd.reads_ok(),
        final(lfs).bd.writes_ok() == old(lfs).bd.writes_ok(),
        old(lfs).bd.reads_ok() && old(lfs).bd.writes_ok() ==> r is Ok,
{
    if lfs.rcache.block == commit.block {
        lfs_cache_drop(&mut lfs.rcache);
    }
    let bc = lfs.block_count;
    let ghost v0 = view_of(*lfs);
    let ghost cont = prog_contiguous(lfs.cfg, lfs.pcache, commit.block, commit.off);
    let ghost gap = prog_gap_start(lfs.pcache, commit.block, commit.off, lfs.cfg.prog_size);
    proof {
        lemma_overlay_index(lfs.cfg, lfs.bd.blocks(), lfs.pcache, commit.block as int, 0);
        if cont {
            lemma_contiguous_gap(lfs.cfg, lfs.pcache, commit.block, commit.off);
        }
    }
    lfs_bd_prog(&lfs.cfg, &mut lfs.bd, bc, &mut lfs.pcache, &mut lfs.rcache, false, commit.block, commit.off, buffer)?;
    proof {
        lemma_prog_expect_splice(v0[commit.block as int], commit.off as int, buffer@);
        if buffer@.len() == 0 {
            assert(prog_expect(v0[commit.block as int], gap, commit.off as int, buffer@) =~= v0[commit.block as int]);
            assert(splice(v0[commit.block as int], commit.off as int, buffer@) =~= v0[commit.block as int]);
            assert(v0.update(commit.block as int, v0[commit.block as int]) =~= v0);
        }
    }
    commit.crc = lfs_crc(commit.crc, buffer);
    commit.off = commit.off + buffer.len() as u32;
    Ok(())
}


/// Where the data of an attribute comes from: memory, or a place on disk.
#[derive(Debug)]
pub enum LfsAttrData {
    Mem(Vec<u8>),
    Disk(LfsDiskoff),
}

/// The `n` data bytes of an attribute, with the device as `blocks`.
pub open spec fn attr_payload(data: LfsAttrData, blocks: Seq<Seq<u8>>, n: int) -> Seq<u8> {
    match data {
        LfsAttrData::Mem(v) => v@,
        LfsAttrData::Disk(d) => if n <= 0 {
            Seq::empty()
        } else {
            blocks[d.block as int].subrange(d.off as int, d.off + n)
        },
    }
}

/// The bytes a commit appends for an attribute: its tag, xored with the
/// previous one and stored big-endian, then its data.
pub open spec fn attr_bytes(tag: u32, ptag: u32, payload: Seq<u8>) -> Seq<u8> {
    be32_bytes((tag & 0x7fff_ffffu32) ^ ptag) + payload
}

/// Appends an attribute to the commit: its tag (xored with the previous
/// one, big-endian) and its data, taken from memory or copied from disk.
/// `NoSpc` when it does not fit before the commit's end.
#[verifier::rlimit(40)]
pub fn lfs_dir_commitattr<D: BlockDevice>(
    lfs: &mut Lfs<D>,
    commit: &mut LfsCommit,
    tag: LfsTag,
    data: &LfsAttrData,
) -> (r: Result<(), LfsError>)
    requires
        old(lfs).caches_ok(),
        old(commit).block < old(lfs).block_count,
        old(commit).end <= old(lfs).cfg.block_size,
        prog_window(old(lfs).cfg, old(lfs).pcache, old(commit).block, old(commit).off),
        data matches LfsAttrData::Mem(v) ==> v@.len() == spec_tag_dsize(tag) - 4,
        (tag >= 0x8000_0000) == (data is Disk),
        data matches LfsAttrData::Disk(d) ==> d.off + spec_tag_dsize(tag) - 4 <= u32::MAX,
    ensures
        same_but_caches(*final(lfs), *old(lfs)),
        final(lfs).bd.blocks().len() == old(lfs).bd.blocks().len(),
        forall|i: int|
            0 <= i < old(lfs).bd.blocks().len() && i != old(commit).block ==> #[trigger] final(lfs).bd.blocks()[i]
                == old(lfs).bd.blocks()[i],
        old(commit).off + spec_tag_dsize(tag) > old(commit).end ==> {
            &&& r == Err::<(), LfsError>(LfsError::NoSpc)
            &&& *final(lfs) == *old(lfs)
            &&& *final(commit) == *old(commit)
        },
        r is Ok ==> {
            let n = spec_tag_dsize(tag) - 4;
            let bytes = attr_bytes(tag, old(commit).ptag, attr_payload(*data, old(lfs).bd.blocks(), n));
            &&& final(lfs).caches_ok()
            &&& final(commit).off == old(commit).off + spec_tag_dsize(tag)
            &&& final(commit).ptag == tag & 0x7fff_ffffu32
            &&& final(commit).block == old(commit).block
            &&& final(commit).begin == old(commit).begin
            &&& final(commit).end == old(commit).end
            &&& prog_window(
                final(lfs).cfg,
                final(lfs).pcache,
                old(commit).block,
                (old(commit).off + spec_tag_dsize(tag)) as u32,
            )
            &&& (data matches LfsAttrData::Disk(d) ==> (n > 0 ==> d.block < old(lfs).block_count && d.off
                + n <= old(lfs).cfg.block_size))
            &&& (data matches LfsAttrData::Disk(d) ==> d.block != old(commit).block) ==> final(commit).crc
                == crc_seq(old(commit).crc, bytes)
            &&& (data matches LfsAttrData::Disk(d) ==> d.block != old(commit).block) && prog_contiguous(
                old(lfs).cfg,
                old(lfs).pcache,
                old(commit).block,
                old(commit).off,
            ) ==> {
                &&& view_of(*final(lfs)) == view_of(*old(lfs)).update(
                    old(commit).block as int,
                    splice(view_of(*old(lfs))[old(commit).block as int], old(commit).off as int, bytes),
                )
                &&& prog_contiguous(
                    final(lfs).cfg,
                    final(lfs).pcache,
                    old(commit).block,
                    (old(commit).off + spec_tag_dsize(tag)) as u32,
                )
            }
        },
        final(lfs).bd.reads_ok() == old(lfs).bd.reads_ok(),
        final(lfs).bd.writes_ok() == old(lfs).bd.writes_ok(),
        old(lfs).bd.reads_ok() && old(lfs).bd.writes_ok() && old(commit).off + spec_tag_dsize(tag) <= old(commit).end
            && (data matches LfsAttrData::Disk(d) ==> (spec_tag_dsize(tag) > 4 ==> d.block < old(lfs).block_count
            && d.off + spec_tag_dsize(tag) - 4 <= old(lfs).cfg.block_size)) ==> r is Ok,
{
    let dsize = lfs_tag_dsize(tag);
    if commit.off as u64 + dsize as u64 > commit.end as u64 {
        return Err(LfsError::NoSpc);
    }
    let ghost b0 = lfs.bd.blocks();
    let ghost v0 = view_of(*lfs);
    let ghost c0 = *commit;
    proof {
        lemma_overlay_index(lfs.cfg, lfs.bd.blocks(), lfs.pcache, commit.block as int, 0);
    }
    let ghost cont = prog_contiguous(lfs.cfg, lfs.pcache, commit.block, commit.off);
    let ntag = (tag & 0x7fff_ffff) ^ commit.ptag;
    let head = lfs_be32_encode(ntag);
    lfs_dir_commitprog(lfs, commit, head.as_slice())?;
    let n = dsize - 4;
    match data {
        LfsAttrData::Mem(v) => {
            lfs_dir_commitprog(lfs, commit, v.as_slice())?;
            proof {
                lemma_splice_concat(v0[c0.block as int], c0.off as int, head@, v@);
                lemma_crc_concat(c0.crc, head@, v@);
                if cont {
                assert(v0.update(c0.block as int, splice(v0[c0.block as int], c0.off as int, head@)).update(
                    c0.block as int,
                    splice(splice(v0[c0.block as int], c0.off as int, head@), c0.off + 4, v@),
                ) =~= v0.update(c0.block as int, splice(v0[c0.block as int], c0.off as int, head@ + v@)));
                }
            }
        },
        LfsAttrData::Disk(disk) => {
            let bc = lfs.block_count;
            let bs = lfs.cfg.block_size;
            let ghost mut got: Seq<u8> = Seq::empty();
            let mut i: u32 = 0;
            proof {
                assert(head@ + got =~= head@);
            }
            while i < n
                invariant
                    lfs.caches_ok(),
                    same_but_caches(*lfs, *old(lfs)),
                    bc == lfs.block_count,
                    bs == lfs.cfg.block_size,
                    lfs.bd.blocks().len() == b0.len(),
                    b0 == old(lfs).bd.blocks(),
                    v0 == view_of(*old(lfs)),
                    c0 == *old(commit),
                    c0.block < bc,
                    c0.end <= bs,
                    n == spec_tag_dsize(tag) - 4,
                    c0.off + 4 + n <= c0.end,
                    v0[c0.block as int].len() == bs,
                    disk.off + n <= u32::MAX,
                    i <= n,
                    got.len() == i,
                    forall|x: int| 0 <= x < b0.len() && x != c0.block ==> #[trigger] lfs.bd.blocks()[x] == b0[x],
                    commit.off == c0.off + 4 + i,
                    commit.ptag == c0.ptag,
                    commit.block == c0.block,
                    commit.begin == c0.begin,
                    commit.end == c0.end,
                    commit.crc == crc_seq(c0.crc, head@ + got),
                    head@ == be32_bytes(ntag),
                    head@.len() == 4,
                    prog_window(lfs.cfg, lfs.pcache, c0.block, commit.off),
                    cont ==> prog_contiguous(lfs.cfg, lfs.pcache, c0.block, commit.off),
                    cont == prog_contiguous(old(lfs).cfg, old(lfs).pcache, c0.block, c0.off),
                    i > 0 ==> disk.block < bc && disk.off + i <= bs,
                    lfs.bd.reads_ok() == old(lfs).bd.reads_ok(),
                    lfs.bd.writes_ok() == old(lfs).bd.writes_ok(),
                    data matches LfsAttrData::Disk(d) && d == disk,
                    bc == old(lfs).block_count,
                    bs == old(lfs).cfg.block_size,
                    i > 0 && disk.block != c0.block ==> got == b0[disk.block as int].subrange(
                        disk.off as int,
                        disk.off + i,
                    ),
                    disk.block != c0.block && cont ==> view_of(*lfs) == v0.update(
                        c0.block as int,
                        splice(v0[c0.block as int], c0.off as int, head@ + got),
                    ),
                decreases n - i,
            {
                let dat = lfs_bd_read(&lfs.cfg, &lfs.bd, bc, None, &mut lfs.rcache, n - i, disk.block, disk.off + i, 1)?;
                let ghost vpre = view_of(*lfs);
                let ghost cpre = *commit;
                lfs_dir_commitprog(lfs, commit, dat.as_slice())?;
                proof {
                    let pre = head@ + got;
                    lemma_crc_concat(c0.crc, pre, dat@);
                    assert(pre + dat@ =~= head@ + (got + dat@));
                    if disk.block != c0.block {
                        assert(dat@ == b0[disk.block as int].subrange(disk.off + i, disk.off + i + 1));
                        assert(got + dat@ =~= b0[disk.block as int].subrange(disk.off as int, disk.off + i + 1));
                    }
                    if disk.block != c0.block && cont {
                        lemma_splice_concat(v0[c0.block as int], c0.off as int, pre, dat@);
                        assert(vpre.update(
                            c0.block as int,
                            splice(vpre[c0.block as int], cpre.off as int, dat@),
                        ) =~= v0.update(
                            c0.block as int,
                            splice(v0[c0.block as int], c0.off as int, head@ + (got + dat@)),
                        ));
                    }
                    got = got + dat@;
                }
                i = i + 1;
            }
            proof {
                if n == 0 {
                    assert(got =~= Seq::<u8>::empty());
                }
            }
        },
    }
    commit.ptag = tag & 0x7fff_ffff;
    Ok(())
}

/// What a commit of an attribute leaves in its block reads back: the
/// stored word, xored with the tag before it, is the committed tag without
/// its top bit; the data follows it; every other byte is as it was.
pub proof fn lemma_commitattr_readback(b: Seq<u8>, off: int, tag: u32, ptag: u32, payload: Seq<u8>)
    requires
        0 <= off,
        off + 4 + payload.len() <= b.len(),
    ensures
        ({
            let nb = splice(b, off, attr_bytes(tag, ptag, payload));
            &&& nb.len() == b.len()
            &&& be32_of(nb.subrange(off, off + 4)) ^ ptag == tag & 0x7fff_ffffu32
            &&& nb.subrange(off + 4, off + 4 + payload.len()) == payload
            &&& forall|k: int|
                0 <= k < b.len() && !(off <= k < off + 4 + payload.len()) ==> #[trigger] nb[k] == b[k]
        }),
{
    let w = (tag & 0x7fff_ffffu32) ^ ptag;
    let nb = splice(b, off, attr_bytes(tag, ptag, payload));
    assert(nb.subrange(off, off + 4) =~= be32_bytes(w));
    lemma_be32_roundtrip(w);
    assert(w ^ ptag == tag & 0x7fff_ffffu32) by (bit_vector)
        requires
            w == (tag & 0x7fff_ffffu32) ^ ptag,
    ;
    assert(nb.subrange(off + 4, off + 4 + payload.len()) =~= payload);
}


/// Where the checksums of a commit at `off` end: past room for a checksum
/// and the checksum of the next prog unit, rounded up to a whole prog unit,
/// and no further than the block.
pub open spec fn commit_crc_end(cfg: LfsConfig, off: u32) -> int {
    let a: int = if off + 20 < cfg.block_size { off + 20 } else { cfg.block_size as int };
    (a + cfg.prog_size - 1) - (a + cfg.prog_size - 1) % (cfg.prog_size as int)
}

/// The commit's running checksum covers what it has put in its block
/// since it began, as the filesystem sees the block, and the program cache
/// ends where the commit does.
pub open spec fn commit_crc_ok<D: BlockDevice>(lfs: Lfs<D>, commit: LfsCommit) -> bool {
    &&& commit.crc == crc_seq(
        0xffff_ffffu32,
        view_of(lfs)[commit.block as int].subrange(commit.begin as int, commit.off as int),
    )
    &&& prog_contiguous(lfs.cfg, lfs.pcache, commit.block, commit.off)
}

/// Ends a commit: pads it to the next prog unit with checksum tags (the
/// first one noting the checksum of the prog unit that follows, when that
/// fits), each checksum tag's valid bit telling apart a later commit,
/// writes everything out, and reads the commit back to check its checksum.
#[verifier::rlimit(60)]
pub fn lfs_dir_commitcrc<D: BlockDevice>(lfs: &mut Lfs<D>, commit: &mut LfsCommit) -> (r: Result<(), LfsError>)
    requires
        old(lfs).caches_ok(),
        old(commit).block < old(lfs).block_count,
        old(commit).begin <= old(commit).off,
        old(commit).off + 8 <= old(lfs).cfg.block_size,
        old(commit).end <= old(lfs).cfg.block_size,
        prog_window(old(lfs).cfg, old(lfs).pcache, old(commit).block, old(commit).off),
    ensures
        same_but_caches(*final(lfs), *old(lfs)),
        final(lfs).bd.blocks().len() == old(lfs).bd.blocks().len(),
        forall|i: int|
            0 <= i < old(lfs).bd.blocks().len() && i != old(commit).block ==> #[trigger] final(lfs).bd.blocks()[i]
                == old(lfs).bd.blocks()[i],
        r is Ok ==> {
            &&& final(lfs).caches_ok()
            &&& final(lfs).pcache.block == LFS_BLOCK_NULL
            &&& final(commit).off == commit_crc_end(old(lfs).cfg, old(commit).off)
            &&& final(commit).crc == 0xffff_ffffu32
            &&& final(commit).block == old(commit).block
            &&& final(commit).begin == old(commit).begin
            &&& final(commit).end == old(commit).end
            &&& exists|o: int|
                (o == old(commit).off + 4 || o == old(commit).off + 16) && #[trigger] crc_seq(
                    0xffff_ffffu32,
                    final(lfs).bd.blocks()[old(commit).block as int].subrange(old(commit).begin as int, o + 4),
                ) == 0
        },
        final(lfs).bd.reads_ok() == old(lfs).bd.reads_ok(),
        final(lfs).bd.writes_ok() == old(lfs).bd.writes_ok(),
        old(lfs).bd.reads_ok() && old(lfs).bd.writes_ok() && r is Err ==> r == Err::<(), LfsError>(LfsError::Corrupt)
            || r == Err::<(), LfsError>(LfsError::NoSpc),
        old(lfs).bd.reads_ok() && old(lfs).bd.writes_ok() && commit_crc_ok(*old(lfs), *old(commit))
            && commit_crc_end(old(lfs).cfg, old(commit).off) <= old(commit).off + 0x402 ==> r is Ok || r == Err::<
            (),
            LfsError,
        >(LfsError::NoSpc),
{
    let ghost c0 = *commit;
    let bs = lfs.cfg.block_size;
    let prog = lfs.cfg.prog_size;
    let bc = lfs.block_count;
    proof {
        lemma_divides_trans(prog as int, lfs.cfg.cache_size as int, bs as int);
        assert(prog <= lfs.cfg.cache_size) by (nonlinear_arith)
            requires
                lfs.cfg.cache_size % prog == 0,
                lfs.cfg.cache_size > 0,
                prog > 0,
        ;
        assert(lfs.cfg.cache_size <= bs) by (nonlinear_arith)
            requires
                bs % lfs.cfg.cache_size == 0,
                lfs.cfg.cache_size > 0,
                bs > 0,
        ;
    }
    let a: u64 = if (commit.off as u64) + 20 < bs as u64 { commit.off as u64 + 20 } else { bs as u64 };
    let p: u64 = prog as u64;
    let e64: u64 = (a + p - 1) - (a + p - 1) % p;
    proof {
        lemma_round_down((a + p - 1) as int, p as int);
        if e64 > bs {
            lemma_aligned_gap(e64 as int, bs as int, p as int);
        }
    }
    let end = e64 as u32;
    let mut off1: u32 = 0;
    let mut crc1: u32 = 0;
    let ghost bpre = lfs.bd.blocks();
    let ghost ok0 = lfs.bd.reads_ok() && lfs.bd.writes_ok() && commit_crc_ok(*lfs, *commit) && end <= c0.off + 0x402;
    while commit.off < end
        invariant
            ok0 == (old(lfs).bd.reads_ok() && old(lfs).bd.writes_ok() && commit_crc_ok(*old(lfs), c0) && end <= c0.off
                + 0x402),
            ok0 && off1 == 0 ==> commit_crc_ok(*lfs, *commit),
            ok0 && off1 != 0 ==> {
                &&& commit.off >= end
                &&& crc1 == crc_seq(
                    0xffff_ffffu32,
                    lfs.bd.blocks()[c0.block as int].subrange(c0.begin as int, off1 as int),
                )
                &&& lfs.bd.blocks()[c0.block as int].subrange(off1 as int, off1 + 4) == le32_bytes(crc1)
            },
            lfs.caches_ok(),
            same_but_caches(*lfs, *old(lfs)),
            lfs.bd.blocks().len() == old(lfs).bd.blocks().len(),
            forall|i: int|
                0 <= i < old(lfs).bd.blocks().len() && i != c0.block ==> #[trigger] lfs.bd.blocks()[i]
                    == old(lfs).bd.blocks()[i],
            bs == lfs.cfg.block_size,
            prog == lfs.cfg.prog_size,
            bc == lfs.block_count,
            c0 == *old(commit),
            c0.block < bc,
            c0.begin <= c0.off,
            c0.end <= bs,
            bs % prog == 0,
            prog <= lfs.cfg.cache_size,
            prog <= bs,
            end == commit_crc_end(lfs.cfg, c0.off),
            end <= bs,
            c0.off + 8 <= end,
            end < bs ==> c0.off + 20 <= end,
            commit.block == c0.block,
            commit.begin == c0.begin,
            commit.end == c0.end,
            commit.off <= end,
            commit.off < end ==> commit.off + 8 <= end && (end < bs ==> commit.off + 20 <= end),
            commit.off < end ==> prog_window(lfs.cfg, lfs.pcache, c0.block, commit.off),
            lfs.pcache.block == LFS_BLOCK_NULL || lfs.pcache.block == c0.block,
            commit.off >= end ==> lfs.pcache.block == LFS_BLOCK_NULL,
            off1 == 0 ==> commit.off == c0.off,
            off1 != 0 ==> (off1 == c0.off + 4 || off1 == c0.off + 16) && off1 + 4 <= end,
            off1 != 0 ==> commit.crc == 0xffff_ffffu32,
            lfs.bd.reads_ok() == old(lfs).bd.reads_ok(),
            lfs.bd.writes_ok() == old(lfs).bd.writes_ok(),
        decreases end - commit.off,
    {
        let ghost first_it = off1 == 0;
        let mut noff = lfs_min(end - (commit.off + 4), 0x3fe) + (commit.off + 4);
        if noff < end {
            noff = lfs_min(noff, end - 20);
        }
        proof {
            if ok0 && first_it {
                assert(noff >= end);
            }
        }
        let mut eperturb: u8 = 0xff;
        if noff >= end && noff <= bs - prog {
            match lfs_bd_read(&lfs.cfg, &lfs.bd, bc, None, &mut lfs.rcache, prog, commit.block, noff, 1) {
                Ok(v) => {
                    eperturb = v[0];
                },
                Err(LfsError::Corrupt) => {},
                Err(e) => {
                    return Err(e);
                },
            }
            if lfs_fs_disk_version(lfs) > 0x0002_0000 {
                let mut fcrc = LfsFcrc { size: prog, crc: 0xffff_ffff };
                match lfs_bd_crc(&lfs.cfg, &lfs.bd, bc, None, &mut lfs.rcache, prog, commit.block, noff, prog, &mut fcrc.crc) {
                    Ok(()) => {},
                    Err(LfsError::Corrupt) => {},
                    Err(e) => {
                        return Err(e);
                    },
                }
                let mut bytes = lfs_le32_encode(fcrc.size);
                let mut tail = lfs_le32_encode(fcrc.crc);
                bytes.append(&mut tail);
                let ftag = LFS_MKTAG(0x5ff, 0x3ff, 8);
                proof {
                    assert(ftag < 0x8000_0000);
                    assert(spec_tag_dsize(ftag) == 12);
                }
                let data = LfsAttrData::Mem(bytes);
                let ghost va = view_of(*lfs);
                let ghost la = *lfs;
                let ghost ca = *commit;
                lfs_dir_commitattr(lfs, commit, ftag, &data)?;
                proof {
                    if ok0 && first_it {
                        let blk = c0.block as int;
                        let fb = attr_bytes(ftag, ca.ptag, attr_payload(data, old(lfs).bd.blocks(), 8));
                        lemma_overlay_index(la.cfg, la.bd.blocks(), la.pcache, blk, 0);
                        assert(view_of(*lfs)[blk].subrange(c0.begin as int, ca.off + 12) =~= va[blk].subrange(
                            c0.begin as int,
                            ca.off as int,
                        ) + fb);
                        lemma_crc_concat(0xffff_ffffu32, va[blk].subrange(c0.begin as int, ca.off as int), fb);
                    }
                }
            }
        }
        let ntag = LFS_MKTAG(0x500 + ((!eperturb) >> 7u8) as u32, 0x3ff, noff - (commit.off + 4));
        let tagw = lfs_be32_encode(ntag ^ commit.ptag);
        let ghost cb = *commit;
        let ghost vb = view_of(*lfs);
        let ghost pb = lfs.pcache;
        let ghost bb = lfs.bd.blocks();
        commit.crc = lfs_crc(commit.crc, tagw.as_slice());
        let mut ccrc = tagw;
        let mut crcw = lfs_le32_encode(commit.crc);
        ccrc.append(&mut crcw);
        if lfs.rcache.block == commit.block {
            lfs_cache_drop(&mut lfs.rcache);
        }
        lfs_bd_prog(&lfs.cfg, &mut lfs.bd, bc, &mut lfs.pcache, &mut lfs.rcache, false, commit.block, commit.off, ccrc.as_slice())?;
        let ghost vc = view_of(*lfs);
        proof {
            if ok0 && first_it {
                let blk = c0.block as int;
                lemma_overlay_index(lfs.cfg, bb, pb, blk, 0);
                lemma_contiguous_gap(lfs.cfg, pb, c0.block, cb.off);
                lemma_prog_expect_splice(vb[blk], cb.off as int, ccrc@);
                assert(vc[blk] == splice(vb[blk], cb.off as int, ccrc@));
                assert(vc[blk].subrange(c0.begin as int, cb.off + 4) =~= vb[blk].subrange(c0.begin as int, cb.off as int)
                    + tagw@);
                assert(vc[blk].subrange(cb.off + 4, cb.off + 8) =~= le32_bytes(commit.crc));
                lemma_crc_concat(0xffff_ffffu32, vb[blk].subrange(c0.begin as int, cb.off as int), tagw@);
            }
        }
        if off1 == 0 {
            off1 = commit.off + 4;
            crc1 = commit.crc;
        }
        commit.off = noff;
        commit.ptag = ntag ^ (((0x80u8 & !eperturb) as u32) << 24u32);
        commit.crc = 0xffff_ffff;
        let ghost bd_pre = lfs.bd.blocks();
        let ghost pc_pre = lfs.pcache;
        if noff >= end || noff as u64 >= lfs.pcache.off as u64 + lfs.cfg.cache_size as u64 {
            lfs_bd_sync(&lfs.cfg, &mut lfs.bd, bc, &mut lfs.pcache, &mut lfs.rcache, false)?;
        }
        proof {
            if ok0 && first_it {
                let blk = c0.block as int;
                let nb = lfs.bd.blocks()[blk];
                assert forall|k: int| c0.begin <= k < cb.off + 8 implies #[trigger] nb[k] == vc[blk][k] by {
                    lemma_overlay_index(lfs.cfg, bd_pre, pc_pre, blk, k);
                    if pc_pre.block == c0.block {
                        lemma_flushed_keeps(lfs.cfg, bd_pre, pc_pre, k);
                    }
                }
                assert(nb.subrange(c0.begin as int, off1 as int) =~= vc[blk].subrange(c0.begin as int, off1 as int));
                assert(nb.subrange(off1 as int, off1 + 4) =~= vc[blk].subrange(off1 as int, off1 + 4));
            }
        }
    }
    let mut crc: u32 = 0xffff_ffff;
    lfs_bd_crc(&lfs.cfg, &lfs.bd, bc, None, &mut lfs.rcache, off1 + 4, commit.block, commit.begin, off1 - commit.begin, &mut crc)?;
    if crc != crc1 {
        return Err(LfsError::Corrupt);
    }
    let ghost mid = crc;
    proof {
        if ok0 {
            lemma_crc_residue(crc1);
        }
    }
    lfs_bd_crc(&lfs.cfg, &lfs.bd, bc, None, &mut lfs.rcache, 4, commit.block, off1, 4, &mut crc)?;
    if crc != 0 {
        return Err(LfsError::Corrupt);
    }
    proof {
        let blk = lfs.bd.blocks()[c0.block as int];
        lemma_crc_concat(0xffff_ffffu32, blk.subrange(c0.begin as int, off1 as int), blk.subrange(off1 as int, off1 + 4));
        assert(blk.subrange(c0.begin as int, off1 as int) + blk.subrange(off1 as int, off1 + 4) =~= blk.subrange(
            c0.begin as int,
            off1 + 4,
        ));
        assert(crc_seq(0xffff_ffffu32, blk.subrange(c0.begin as int, off1 + 4)) == 0);
    }
    Ok(())
}


/// A revision count moved up to the next multiple of `cycles`, wrapping
/// around the word as the sum does.
pub open spec fn rev_aligned(rev: u32, cycles: u32) -> u32 {
    let t = ((rev + cycles - 1) % 0x1_0000_0000) as u32;
    (t - t % cycles) as u32
}

/// Allocates a metadata pair (its second block first) and sets it up as an
/// empty directory, with a revision count taken from what the first block
/// held (or zero when it cannot be read), rounded up to the wear-leveling
/// period so the pair is not evicted at once. Nothing is written yet.
pub fn lfs_dir_alloc<D: BlockDevice>(lfs: &mut Lfs<D>, in_use: &[LfsBlock], dir: &mut LfsMdir) -> (r: Result<(), LfsError>)
    requires
        old(lfs).caches_ok(),
        lookahead_ok(old(lfs).lookahead, old(lfs).cfg.lookahead_size, old(lfs).block_count),
        0 < old(lfs).cfg.lookahead_size <= 0x1000_0000,
        forall|i: int| 0 <= i < in_use@.len() ==> #[trigger] in_use@[i] < old(lfs).block_count,
        old(lfs).cfg.block_cycles < i32::MAX,
    ensures
        final(lfs).caches_ok(),
        final(lfs).bd == old(lfs).bd,
        final(lfs).pcache == old(lfs).pcache,
        final(lfs).cfg == old(lfs).cfg,
        final(lfs).block_count == old(lfs).block_count,
        lookahead_ok(final(lfs).lookahead, final(lfs).cfg.lookahead_size, final(lfs).block_count),
        marks_all(old(lfs).lookahead, old(lfs).block_count, in_use@) ==> marks_all(
            final(lfs).lookahead,
            final(lfs).block_count,
            in_use@,
        ),
        r is Ok ==> {
            let rev0 = le32_of(old(lfs).bd.blocks()[final(dir).pair[0] as int].subrange(0, 4));
            let cycles = (((old(lfs).cfg.block_cycles + 1) as i32) | 1i32) as u32;
            &&& final(dir).pair[0] < old(lfs).block_count
            &&& final(dir).pair[1] < old(lfs).block_count
            &&& marks_all(old(lfs).lookahead, old(lfs).block_count, in_use@) ==> !in_use@.contains(
                final(dir).pair[0],
            ) && !in_use@.contains(final(dir).pair[1])
            &&& (old(lfs).cfg.block_cycles > 0 ==> (final(dir).rev == rev_aligned(rev0, cycles)
                || final(dir).rev == rev_aligned(0, cycles)))
            &&& (old(lfs).cfg.block_cycles <= 0 ==> (final(dir).rev == rev0 || final(dir).rev == 0))
            &&& final(dir).off == 4
            &&& final(dir).etag == 0xffff_ffffu32
            &&& final(dir).count == 0
            &&& final(dir).tail == [LFS_BLOCK_NULL, LFS_BLOCK_NULL]
            &&& !final(dir).erased
            &&& !final(dir).split
        },
        old(lfs).bd.reads_ok() && r is Err ==> r == Err::<(), LfsError>(LfsError::NoSpc)
            && final(lfs).lookahead.ckpoint == 0,
        old(lfs).bd.reads_ok() && old(lfs).cfg.block_size >= 4 && r is Ok ==> {
            let rev0 = le32_of(old(lfs).bd.blocks()[final(dir).pair[0] as int].subrange(0, 4));
            let cycles = (((old(lfs).cfg.block_cycles + 1) as i32) | 1i32) as u32;
            &&& old(lfs).cfg.block_cycles > 0 ==> final(dir).rev == rev_aligned(rev0, cycles)
            &&& old(lfs).cfg.block_cycles <= 0 ==> final(dir).rev == rev0
        },
{
    let b1 = lfs_alloc(lfs, in_use)?;
    dir.pair[1] = b1;
    let b0 = lfs_alloc(lfs, in_use)?;
    dir.pair[0] = b0;
    dir.rev = 0;
    let bc = lfs.block_count;
    let mut rev: u32 = 0;
    match lfs_bd_read(&lfs.cfg, &lfs.bd, bc, None, &mut lfs.rcache, 4, b0, 0, 4) {
        Ok(v) => {
            rev = lfs_le32_decode(v.as_slice(), 0);
            proof {
                assert(v@.subrange(0, 4) =~= v@);
            }
        },
        Err(LfsError::Corrupt) => {},
        Err(e) => {
            return Err(e);
        },
    }
    dir.rev = rev;
    if lfs.cfg.block_cycles > 0 {
        let cycles = ((lfs.cfg.block_cycles + 1) | 1) as u32;
        proof {
            let c: i32 = (lfs.cfg.block_cycles + 1) as i32;
            assert((c | 1i32) >= 1i32 && ((c | 1i32) as u32) == (c | 1i32) as int) by (bit_vector)
                requires
                    c > 1,
            ;
        }
        let t = dir.rev.wrapping_add(cycles - 1);
        proof {
            let s: int = dir.rev + cycles - 1;
            if s >= 0x1_0000_0000 {
                vstd::arithmetic::div_mod::lemma_mod_sub_multiples_vanish(s, 0x1_0000_0000);
                vstd::arithmetic::div_mod::lemma_small_mod((s - 0x1_0000_0000) as nat, 0x1_0000_0000);
            } else {
                vstd::arithmetic::div_mod::lemma_small_mod(s as nat, 0x1_0000_0000);
            }
        }
        proof {
            assert(t % cycles <= t) by (nonlinear_arith)
                requires
                    cycles > 0,
            ;
        }
        dir.rev = t - t % cycles;
    }
    dir.off = 4;
    dir.etag = 0xffff_ffff;
    dir.count = 0;
    dir.tail = [LFS_BLOCK_NULL, LFS_BLOCK_NULL];
    dir.erased = false;
    dir.split = false;
    Ok(())
}

/// Adds the size an attribute takes in a commit, its tag included, to `size`.
pub fn lfs_dir_commit_size(size: &mut LfsSize, tag: LfsTag)
    ensures
        *final(size) == ((*old(size) + spec_tag_dsize(tag)) % 0x1_0000_0000) as u32,
{
    *size = size.wrapping_add(lfs_tag_dsize(tag));
}

/// How many revisions a metadata pair stays in place for wear leveling:
/// the next odd number from `block_cycles + 1`.
pub open spec fn relocation_period(block_cycles: i32) -> int {
    if (block_cycles + 1) % 2 == 0 {
        block_cycles + 2
    } else {
        block_cycles + 1
    }
}

/// Whether a metadata pair is due to move to new blocks for wear leveling:
/// wear leveling is on and its next revision is a multiple of the period.
pub fn lfs_dir_needsrelocation<D: BlockDevice>(lfs: &Lfs<D>, dir: &LfsMdir) -> (r: bool)
    ensures
        r == (lfs.cfg.block_cycles > 0 && ((dir.rev + 1) % 0x1_0000_0000) % relocation_period(lfs.cfg.block_cycles)
            == 0),
{
    if lfs.cfg.block_cycles <= 0 {
        return false;
    }
    let c = lfs.cfg.block_cycles as u32 + 1;
    let period = if c % 2 == 0 { c + 1 } else { c };
    dir.rev.wrapping_add(1) % period == 0
}

/// Whether, while compacting, the later attribute `tag` makes the earlier
/// one held in `filter` redundant: the same entry and type (the full type
/// where the type is unique, the major type where not), `filter` already
/// deleted, or `tag` deleting `filter`'s entry.
pub open spec fn filter_redundant(tag: u32, filter: u32) -> bool {
    let mask = if tag & 0x1000_0000u32 != 0 { 0x7fff_fc00u32 } else { 0x700f_fc00u32 };
    ||| mask & tag == mask & filter
    ||| spec_tag_isdelete(filter)
    ||| 0x7fff_fc00u32 & tag == (0x4ff0_0000u32 | (0x000f_fc00u32 & filter))
}

/// Whether `tag` creates or deletes an entry at or below `filter`'s id.
pub open spec fn filter_shifts(tag: u32, filter: u32) -> bool {
    (tag / 0x1000_0000) % 8 == 4 && spec_tag_id(tag) <= spec_tag_id(filter)
}

/// Decides, while compacting, whether the attribute held in `filter` is
/// made redundant by the later attribute `tag`; it then becomes a no-op.
/// Else it follows the id shift of a create or delete at or below its id.
pub fn lfs_dir_traverse_filter(filter: &mut LfsTag, tag: LfsTag) -> (r: bool)
    ensures
        r == filter_redundant(tag, *old(filter)),
        r ==> *final(filter) == 0,
        !r && filter_shifts(tag, *old(filter)) ==> *final(filter) == wadd(*old(filter), splice_shift(tag)),
        !r && !filter_shifts(tag, *old(filter)) ==> *final(filter) == *old(filter),
{
    let mask: u32 = if tag & 0x1000_0000 != 0 { 0x7fff_fc00 } else { 0x700f_fc00 };
    let f = *filter;
    if (mask & tag) == (mask & f) || lfs_tag_isdelete(f) || (0x7fff_fc00 & tag) == (0x4ff0_0000 | (0x000f_fc00 & f)) {
        *filter = 0;
        return true;
    }
    if lfs_tag_type1(tag) == 0x400 && lfs_tag_id(tag) <= lfs_tag_id(f) {
        let c = lfs_tag_chunk(tag);
        let shift: u32 = if c < 0x80 {
            c as u32 * 0x400
        } else {
            (c as u32 * 0x400).wrapping_sub(0x40000)
        };
        *filter = f.wrapping_add(shift);
    }
    false
}

} // verus!
