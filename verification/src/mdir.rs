//! Looking attributes up in a fetched metadata block: its log is walked
//! back from the end, each tag undone from the xor with the one after it,
//! following the id shifts that creates and deletes make.
use vstd::prelude::*;
use crate::bd::{BlockDevice, lfs_bd_read};
use crate::defines::{LfsDir, LfsError, LfsGstate, LfsInfo, LfsMdir, LfsOff, LfsSize, LfsSoff, LfsTag};
use crate::fs::{same_but_rcache, Lfs};
use crate::bd::splice;
use crate::commit::{attr_bytes, lemma_commitattr_readback};
use crate::pair::{
    gstate_xor_spec, lfs_gstate_hasmovehere, lfs_gstate_xor, spec_gstate_hasmove, spec_pair_overlap,
};
use crate::tag::{
    lfs_tag_chunk, lfs_tag_dsize, lfs_tag_id, lfs_tag_isdelete, lfs_tag_size, lfs_tag_type1,
    lfs_tag_type3, spec_mktag, spec_tag_dsize, spec_tag_id, spec_tag_isdelete, spec_tag_size, spec_tag_type3,
    LFS_MKTAG,
};
use crate::util::{be32_of, le32_of, lfs_be32_decode, lfs_le32_decode, lfs_min};

verus! {

/// The outcome of looking a tag up in a metadata log.
#[derive(Debug, Clone, Copy, PartialEq, Eq, Structural)]
pub enum Lookup {
    /// Found at offset `off` with tag `tag`, ids shifted by `gdiff`.
    Found(u32, u32, u32),
    /// Not there, or deleted.
    Missing,
}

/// The id shift of a create or delete tag: its chunk as a signed count,
/// in the id field, wrapping around the word.
pub open spec fn splice_shift(tag: u32) -> u32 {
    let c = (tag / 0x100000) % 0x100;
    if c < 0x80 {
        (c * 0x400) as u32
    } else {
        ((c * 0x400 + 0x1_0000_0000 - 0x40000) % 0x1_0000_0000) as u32
    }
}

/// `a - b` around the word.
pub open spec fn wsub(a: u32, b: u32) -> u32 {
    ((a + 0x1_0000_0000 - b) % 0x1_0000_0000) as u32
}

/// `a + b` around the word.
pub open spec fn wadd(a: u32, b: u32) -> u32 {
    ((a + b) % 0x1_0000_0000) as u32
}

/// What one tag of the log means for a lookup.
#[derive(Debug, Clone, Copy, PartialEq, Eq, Structural)]
pub enum WalkStep {
    /// The entry is not there.
    Missing,
    /// The tag matches, with ids shifted by the given amount.
    Found(u32),
    /// Go on to the tag before, with ids shifted by the given amount.
    Next(u32),
}

/// Whether `tag` creates or deletes an id at or below the one looked up.
pub open spec fn walk_hit(tag: u32, gdiff: u32, gmask: u32, gtag: u32) -> bool {
    spec_tag_id(gmask) != 0 && (tag / 0x1000_0000) % 8 == 4 && spec_tag_id(tag) <= spec_tag_id(
        wsub(gtag, gdiff),
    )
}

/// What `tag` means for a lookup of `gtag` under `gmask` with ids shifted
/// by `gdiff`: a create of the id itself means it is missing; creates and
/// deletes of lower ids shift it; a match is found unless deleted.
pub open spec fn walk_step(tag: u32, gdiff: u32, gmask: u32, gtag: u32) -> WalkStep {
    let g = wsub(gtag, gdiff);
    let hit = walk_hit(tag, gdiff, gmask, gtag);
    if hit && tag == (0x4010_0000u32 | (0x000f_fc00u32 & g)) {
        WalkStep::Missing
    } else {
        let gdiff2 = if hit { wadd(gdiff, splice_shift(tag)) } else { gdiff };
        if (gmask & tag) == (gmask & wsub(gtag, gdiff2)) {
            if spec_tag_isdelete(tag) {
                WalkStep::Missing
            } else {
                WalkStep::Found(gdiff2)
            }
        } else {
            WalkStep::Next(gdiff2)
        }
    }
}

/// Walks the log in block `b` back from `off`, where the tag `ntag` ends,
/// for the first tag that matches `gtag` under `gmask`, each tag before it
/// undone from the xor with the one after it.
#[verifier::opaque]
pub open spec fn dir_walk(b: Seq<u8>, off: u32, ntag: u32, gdiff: u32, gmask: u32, gtag: u32) -> Lookup
    decreases off,
{
    if off < 4 + spec_tag_dsize(ntag) {
        Lookup::Missing
    } else {
        let noff = (off - spec_tag_dsize(ntag)) as u32;
        match walk_step(ntag, gdiff, gmask, gtag) {
            WalkStep::Missing => Lookup::Missing,
            WalkStep::Found(gd2) => Lookup::Found(noff, ntag, gd2),
            WalkStep::Next(gd2) => dir_walk(
                b,
                noff,
                (be32_of(b.subrange(noff as int, noff + 4)) ^ ntag) & 0x7fff_ffffu32,
                gd2,
                gmask,
                gtag,
            ),
        }
    }
}

/// Decides what one tag of the log means for a lookup.
#[verifier::rlimit(40)]
fn lfs_walk_step(tag: LfsTag, gdiff: u32, gmask: LfsTag, gtag: LfsTag) -> (r: WalkStep)
    ensures
        r == walk_step(tag, gdiff, gmask, gtag),
{
    let g = gtag.wrapping_sub(gdiff);
    let hit = lfs_tag_id(gmask) != 0 && lfs_tag_type1(tag) == 0x400 && lfs_tag_id(tag) <= lfs_tag_id(g);
    proof {
        assert(g == wsub(gtag, gdiff));
        assert(hit == walk_hit(tag, gdiff, gmask, gtag));
    }
    let mut gdiff2 = gdiff;
    if hit {
        if tag == (0x4010_0000u32 | (0x000f_fc00u32 & g)) {
            return WalkStep::Missing;
        }
        let c = lfs_tag_chunk(tag);
        let shift: u32 = if c < 0x80 {
            (c as u32) << 10u32
        } else {
            ((c as u32) << 10u32).wrapping_sub(0x40000)
        };
        proof {
            vstd::arithmetic::power2::lemma2_to64();
            vstd::bits::lemma_u32_shl_is_mul(c as u32, 10u32);
        }
        gdiff2 = gdiff.wrapping_add(shift);
    }
    if (gmask & tag) == (gmask & gtag.wrapping_sub(gdiff2)) {
        if lfs_tag_isdelete(tag) {
            WalkStep::Missing
        } else {
            WalkStep::Found(gdiff2)
        }
    } else {
        WalkStep::Next(gdiff2)
    }
}

/// Id shifts move whole ids: a walk that starts from one finds a shift
/// that leaves the size field of a tag alone.
pub proof fn lemma_walk_shift_aligned(b: Seq<u8>, off: u32, ntag: u32, gdiff: u32, gmask: u32, gtag: u32)
    requires
        gdiff % 0x400 == 0,
    ensures
        dir_walk(b, off, ntag, gdiff, gmask, gtag) matches Lookup::Found(o, t, gd) ==> gd % 0x400 == 0
            && spec_tag_size(wadd(t, gd)) == spec_tag_size(t),
    decreases off,
{
    reveal(dir_walk);
    if off >= 4 + spec_tag_dsize(ntag) {
        let noff = (off - spec_tag_dsize(ntag)) as u32;
        let c = (ntag / 0x100000) % 0x100;
        let sh = splice_shift(ntag);
        assert(sh % 0x400 == 0) by {
            if c < 0x80 {
                assert((c * 0x400) % 0x400 == 0) by (nonlinear_arith);
            } else {
                let x: int = c * 0x400 + 0x1_0000_0000 - 0x40000;
                assert(x % 0x1_0000_0000 % 0x400 == 0) by (nonlinear_arith)
                    requires
                        x == c * 0x400 + 0x1_0000_0000 - 0x40000,
                        c >= 0,
                ;
            }
        }
        let s2: int = gdiff + sh;
        assert(s2 % 0x1_0000_0000 % 0x400 == 0) by (nonlinear_arith)
            requires
                gdiff % 0x400 == 0,
                sh % 0x400 == 0,
                s2 == gdiff + sh,
                gdiff >= 0,
                sh >= 0,
        ;
        match walk_step(ntag, gdiff, gmask, gtag) {
            WalkStep::Found(gd2) => {
                let t: int = ntag + gd2;
                assert(t % 0x1_0000_0000 % 0x400 == ntag % 0x400) by (nonlinear_arith)
                    requires
                        gd2 % 0x400 == 0,
                        t == ntag + gd2,
                        ntag >= 0,
                        gd2 >= 0,
                ;
            },
            WalkStep::Next(gd2) => {
                lemma_walk_shift_aligned(
                    b,
                    noff,
                    (be32_of(b.subrange(noff as int, noff + 4)) ^ ntag) & 0x7fff_ffffu32,
                    gd2,
                    gmask,
                    gtag,
                );
            },
            WalkStep::Missing => {},
        }
    }
}

/// The id shift a pending move makes in `dir` for a lookup: a move of an
/// earlier id shifts later ones down by one.
pub open spec fn move_shift<D: BlockDevice>(lfs: Lfs<D>, dir: LfsMdir, gmask: u32, gtag: u32) -> u32 {
    if spec_gstate_hasmove(lfs.gdisk) && spec_pair_overlap(lfs.gdisk.pair, dir.pair) && spec_tag_id(gmask)
        != 0 && spec_tag_id(lfs.gdisk.tag) < spec_tag_id(gtag) {
        0xffff_fc00u32
    } else {
        0
    }
}

/// Whether the entry looked up is the one a pending move takes out of `dir`.
pub open spec fn moved_away<D: BlockDevice>(lfs: Lfs<D>, dir: LfsMdir, gmask: u32, gtag: u32) -> bool {
    spec_gstate_hasmove(lfs.gdisk) && spec_pair_overlap(lfs.gdisk.pair, dir.pair) && spec_tag_id(gmask) != 0
        && spec_tag_id(lfs.gdisk.tag) == spec_tag_id(gtag)
}

/// The data of the latest attribute of `dir` that matches `gtag` under
/// `gmask`, or nothing where the lookup finds none.
pub open spec fn attr_data<D: BlockDevice>(lfs: Lfs<D>, dir: LfsMdir, gmask: u32, gtag: u32) -> Seq<u8> {
    let b = lfs.bd.blocks()[dir.pair[0] as int];
    if moved_away(lfs, dir, gmask, gtag) {
        Seq::empty()
    } else {
        match dir_walk(b, dir.off, dir.etag, move_shift(lfs, dir, gmask, gtag), gmask, gtag) {
            Lookup::Found(o, tag, _) => Seq::new(spec_tag_size(tag) as nat, |k: int| b[o + 4 + k]),
            Lookup::Missing => Seq::empty(),
        }
    }
}

/// Reads `diff` bytes at `off` in `block`, padded with zeros to `gsize`.
fn read_padded<D: BlockDevice>(lfs: &mut Lfs<D>, block: u32, off: u32, diff: u32, gsize: u32) -> (r: Result<Vec<u8>, LfsError>)
    requires
        old(lfs).caches_ok(),
        diff <= gsize,
    ensures
        final(lfs).caches_ok(),
        same_but_rcache(*final(lfs), *old(lfs)),
        r matches Err(e) ==> e != LfsError::NoEnt,
        block < old(lfs).block_count && off + diff <= old(lfs).cfg.block_size && old(lfs).bd.reads_ok() ==> r is Ok,
        r matches Ok(buf) ==> {
            &&& block < old(lfs).block_count
            &&& off + diff <= old(lfs).cfg.block_size
            &&& buf@.len() == gsize
            &&& buf@.subrange(0, diff as int) == old(lfs).bd.blocks()[block as int].subrange(off as int, off + diff)
            &&& forall|k: int| diff <= k < gsize ==> #[trigger] buf@[k] == 0u8
        },
{
    let bc = lfs.block_count;
    let hint = if diff == 0 { 1 } else { diff };
    let mut buf = lfs_bd_read(&lfs.cfg, &lfs.bd, bc, None, &mut lfs.rcache, hint, block, off, diff)?;
    proof {
        if diff == 0 && block >= bc {
            assert(false);
        }
    }
    let ghost got = buf@;
    let mut k: u32 = diff;
    while k < gsize
        invariant
            diff <= k <= gsize,
            buf@.len() == k,
            buf@.subrange(0, diff as int) == got,
            forall|j: int| diff <= j < k ==> #[trigger] buf@[j] == 0u8,
        decreases gsize - k,
    {
        buf.push(0);
        k = k + 1;
        proof {
            assert(buf@.subrange(0, diff as int) =~= got);
        }
    }
    proof {
        assert(got.subrange(0, diff as int) =~= got);
    }
    Ok(buf)
}

/// A lookup in `dir` finds nothing: the entry is the one a pending move
/// takes away, or the log holds no live attribute for it.
pub open spec fn lookup_absent<D: BlockDevice>(lfs: Lfs<D>, dir: LfsMdir, gmask: u32, gtag: u32) -> bool {
    moved_away(lfs, dir, gmask, gtag) || dir_walk(
        lfs.bd.blocks()[dir.pair[0] as int],
        dir.off,
        dir.etag,
        move_shift(lfs, dir, gmask, gtag),
        gmask,
        gtag,
    ) == Lookup::Missing
}

/// A lookup in `dir` stays within its block: the block is on the device,
/// the log ends inside it, and the slice of the entry the lookup finds, if
/// any, ends inside it too.
pub open spec fn walk_in_block<D: BlockDevice>(
    lfs: Lfs<D>,
    dir: LfsMdir,
    gmask: u32,
    gtag: u32,
    goff: u32,
    gsize: u32,
) -> bool {
    let b = lfs.bd.blocks()[dir.pair[0] as int];
    &&& dir.pair[0] < lfs.block_count
    &&& dir.off <= lfs.cfg.block_size
    &&& dir_walk(b, dir.off, dir.etag, move_shift(lfs, dir, gmask, gtag), gmask, gtag) matches Lookup::Found(
        o,
        tag,
        gd2,
    ) ==> o + 4 + goff + (if spec_tag_size(tag) < gsize {
        spec_tag_size(tag)
    } else {
        gsize
    }) <= lfs.cfg.block_size
}

/// Looks up the latest attribute of `dir` that matches `gtag` under `gmask`
/// and reads `gsize` bytes of its data from `goff`, padding with zeros past
/// its end. Gives its tag with the id as it is now.
pub fn lfs_dir_getslice<D: BlockDevice>(
    lfs: &mut Lfs<D>,
    dir: &LfsMdir,
    gmask: LfsTag,
    gtag: LfsTag,
    goff: LfsOff,
    gsize: LfsSize,
) -> (r: Result<(LfsTag, Vec<u8>), LfsError>)
    requires
        old(lfs).caches_ok(),
    ensures
        final(lfs).caches_ok(),
        same_but_rcache(*final(lfs), *old(lfs)),
        r matches Ok((t, buf)) ==> {
            let b = old(lfs).bd.blocks()[dir.pair[0] as int];
            let gd = move_shift(*old(lfs), *dir, gmask, gtag);
            &&& !moved_away(*old(lfs), *dir, gmask, gtag)
            &&& dir.pair[0] < old(lfs).block_count
            &&& dir_walk(b, dir.off, dir.etag, gd, gmask, gtag) matches Lookup::Found(o, tag, gd2) && {
                let n = if spec_tag_size(tag) < gsize { spec_tag_size(tag) } else { gsize };
                &&& t == wadd(tag, gd2)
                &&& o + 4 + goff + n <= old(lfs).cfg.block_size
                &&& buf@.len() == gsize
                &&& buf@.subrange(0, n as int) == b.subrange(o + 4 + goff, o + 4 + goff + n)
                &&& forall|k: int| n <= k < gsize ==> #[trigger] buf@[k] == 0u8
            }
        },
        r == Err::<(LfsTag, Vec<u8>), LfsError>(LfsError::NoEnt) ==> moved_away(*old(lfs), *dir, gmask, gtag)
            || dir_walk(
            old(lfs).bd.blocks()[dir.pair[0] as int],
            dir.off,
            dir.etag,
            move_shift(*old(lfs), *dir, gmask, gtag),
            gmask,
            gtag,
        ) == Lookup::Missing,
        old(lfs).bd.reads_ok() && walk_in_block(*old(lfs), *dir, gmask, gtag, goff, gsize) ==> (r is Ok || r
            == Err::<(LfsTag, Vec<u8>), LfsError>(LfsError::NoEnt)),
{
    let ghost b = lfs.bd.blocks()[dir.pair[0] as int];
    let mut off = dir.off;
    let mut ntag = dir.etag;
    let mut gdiff: u32 = 0;
    if lfs_gstate_hasmovehere(&lfs.gdisk, &dir.pair) && lfs_tag_id(gmask) != 0 {
        if lfs_tag_id(lfs.gdisk.tag) == lfs_tag_id(gtag) {
            return Err(LfsError::NoEnt);
        } else if lfs_tag_id(lfs.gdisk.tag) < lfs_tag_id(gtag) {
            gdiff = 0xffff_fc00;
        }
    }
    let bc = lfs.block_count;
    let ghost gd0 = gdiff;
    proof {
        reveal(dir_walk);
    }
    while off >= 4 + lfs_tag_dsize(ntag)
        invariant
            lfs.caches_ok(),
            same_but_rcache(*lfs, *old(lfs)),
            bc == lfs.block_count,
            b == lfs.bd.blocks()[dir.pair[0] as int],
            off <= dir.off,
            gd0 == move_shift(*old(lfs), *dir, gmask, gtag),
            !moved_away(*old(lfs), *dir, gmask, gtag),
            dir_walk(b, off, ntag, gdiff, gmask, gtag) == dir_walk(b, dir.off, dir.etag, gd0, gmask, gtag),
        decreases off,
    {
        proof {
            reveal(dir_walk);
        }
        let tag = ntag;
        let noff = off - lfs_tag_dsize(tag);
        let w = lfs_bd_read(&lfs.cfg, &lfs.bd, bc, None, &mut lfs.rcache, 4, dir.pair[0], noff, 4)?;
        let word = lfs_be32_decode(w.as_slice(), 0);
        proof {
            assert(w@.subrange(0, 4) =~= w@);
        }
        match lfs_walk_step(tag, gdiff, gmask, gtag) {
            WalkStep::Missing => {
                return Err(LfsError::NoEnt);
            },
            WalkStep::Found(gd2) => {
                if goff > u32::MAX - 4 - noff {
                    return Err(LfsError::Corrupt);
                }
                let diff = lfs_min(lfs_tag_size(tag), gsize);
                let buf = read_padded(lfs, dir.pair[0], noff + 4 + goff, diff, gsize)?;
                return Ok((tag.wrapping_add(gd2), buf));
            },
            WalkStep::Next(gd2) => {
                gdiff = gd2;
                ntag = (word ^ tag) & 0x7fff_ffff;
                off = noff;
            },
        }
    }
    Err(LfsError::NoEnt)
}

/// Looks up the latest attribute of `dir` that matches `gtag` under `gmask`
/// and reads as many bytes of its data as `gtag`'s size asks for.
pub fn lfs_dir_get<D: BlockDevice>(lfs: &mut Lfs<D>, dir: &LfsMdir, gmask: LfsTag, gtag: LfsTag) -> (r: Result<(LfsTag, Vec<u8>), LfsError>)
    requires
        old(lfs).caches_ok(),
    ensures
        final(lfs).caches_ok(),
        same_but_rcache(*final(lfs), *old(lfs)),
        r matches Ok((t, buf)) ==> {
            let b = old(lfs).bd.blocks()[dir.pair[0] as int];
            let gd = move_shift(*old(lfs), *dir, gmask, gtag);
            &&& !moved_away(*old(lfs), *dir, gmask, gtag)
            &&& dir_walk(b, dir.off, dir.etag, gd, gmask, gtag) matches Lookup::Found(o, tag, gd2) && {
                let n = if spec_tag_size(tag) < spec_tag_size(gtag) { spec_tag_size(tag) } else { spec_tag_size(gtag) };
                &&& t == wadd(tag, gd2)
                &&& buf@.len() == spec_tag_size(gtag)
                &&& buf@.subrange(0, n as int) == b.subrange(o + 4, o + 4 + n)
                &&& forall|k: int| n <= k < spec_tag_size(gtag) ==> #[trigger] buf@[k] == 0u8
            }
        },
        r == Err::<(LfsTag, Vec<u8>), LfsError>(LfsError::NoEnt) ==> moved_away(*old(lfs), *dir, gmask, gtag)
            || dir_walk(
            old(lfs).bd.blocks()[dir.pair[0] as int],
            dir.off,
            dir.etag,
            move_shift(*old(lfs), *dir, gmask, gtag),
            gmask,
            gtag,
        ) == Lookup::Missing,
        old(lfs).bd.reads_ok() && walk_in_block(*old(lfs), *dir, gmask, gtag, 0, spec_tag_size(gtag)) ==> (r is Ok
            || r == Err::<(LfsTag, Vec<u8>), LfsError>(LfsError::NoEnt)),
{
    lfs_dir_getslice(lfs, dir, gmask, gtag, 0, lfs_tag_size(gtag))
}


/// The global state a metadata block holds, read from its twelve
/// little-endian bytes.
pub open spec fn gstate_of(b: Seq<u8>) -> LfsGstate {
    LfsGstate {
        tag: le32_of(b.subrange(0, 4)),
        pair: [le32_of(b.subrange(4, 8)), le32_of(b.subrange(8, 12))],
    }
}

/// Xors the global state recorded in `dir` (if any) into `gstate`.
pub fn lfs_dir_getgstate<D: BlockDevice>(lfs: &mut Lfs<D>, dir: &LfsMdir, gstate: &mut LfsGstate) -> (r: Result<(), LfsError>)
    requires
        old(lfs).caches_ok(),
    ensures
        final(lfs).caches_ok(),
        same_but_rcache(*final(lfs), *old(lfs)),
        r is Ok ==> {
            let b = old(lfs).bd.blocks()[dir.pair[0] as int];
            match dir_walk(b, dir.off, dir.etag, 0, 0x7ff0_0000u32, 0x7ff0_000cu32) {
                Lookup::Found(o, tag, gd) => {
                    let n: int = if spec_tag_size(tag) < 12 { spec_tag_size(tag) as int } else { 12 };
                    let d = b.subrange(o + 4, o + 4 + n) + Seq::new((12 - n) as nat, |j: int| 0u8);
                    let x = gstate_xor_spec(*old(gstate), gstate_of(d));
                    &&& final(gstate).tag == x.tag
                    &&& final(gstate).pair[0] == x.pair[0]
                    &&& final(gstate).pair[1] == x.pair[1]
                },
                Lookup::Missing => *final(gstate) == *old(gstate),
            }
        },
        r is Err ==> *final(gstate) == *old(gstate),
        old(lfs).bd.reads_ok() && walk_in_block(*old(lfs), *dir, 0x7ff0_0000u32, 0x7ff0_000cu32, 0, 12) ==> r is Ok,
{
    let ghost b = lfs.bd.blocks()[dir.pair[0] as int];
    let ghost w = dir_walk(b, dir.off, dir.etag, 0, 0x7ff0_0000u32, 0x7ff0_000cu32);
    proof {
        assert(spec_tag_id(0x7ff0_0000u32) == 0);
        assert(move_shift(*lfs, *dir, 0x7ff0_0000u32, 0x7ff0_000cu32) == 0);
        assert(!moved_away(*lfs, *dir, 0x7ff0_0000u32, 0x7ff0_000cu32));
        assert(spec_tag_size(0x7ff0_000cu32) == 12);
    }
    match lfs_dir_get(lfs, dir, 0x7ff0_0000, 0x7ff0_000c) {
        Ok((_tag, buf)) => {
            let temp = LfsGstate {
                tag: lfs_le32_decode(buf.as_slice(), 0),
                pair: [lfs_le32_decode(buf.as_slice(), 4), lfs_le32_decode(buf.as_slice(), 8)],
            };
            proof {
                if let Lookup::Found(o, tag, gd) = w {
                    let n: int = if spec_tag_size(tag) < 12 { spec_tag_size(tag) as int } else { 12 };
                    let d = b.subrange(o + 4, o + 4 + n) + Seq::new((12 - n) as nat, |j: int| 0u8);
                    assert(buf@ =~= d);
                    assert(buf@.subrange(0, 4) == d.subrange(0, 4));
                    assert(buf@.subrange(4, 8) == d.subrange(4, 8));
                    assert(buf@.subrange(8, 12) == d.subrange(8, 12));
                }
            }
            lfs_gstate_xor(gstate, &temp);
            Ok(())
        },
        Err(LfsError::NoEnt) => Ok(()),
        Err(e) => Err(e),
    }
}


/// The bytes a lookup found: `n` bytes of data after the tag at `o`.
pub open spec fn found_data(b: Seq<u8>, o: u32, n: int) -> Seq<u8> {
    b.subrange(o + 4, o + 4 + n)
}

/// Fills `info` with what `dir` records of entry `id`: its type and name,
/// and its size for a file (from its skip-list or its inline data). The
/// root (id 0x3ff) is the directory "/".
#[verifier::rlimit(30)]
pub fn lfs_dir_getinfo<D: BlockDevice>(lfs: &mut Lfs<D>, dir: &LfsMdir, id: u16, info: &mut LfsInfo) -> (r: Result<(), LfsError>)
    requires
        old(lfs).caches_ok(),
        old(lfs).name_max < 0x3ff,
        id <= 0x3ff,
    ensures
        final(lfs).caches_ok(),
        same_but_rcache(*final(lfs), *old(lfs)),
        id == 0x3ff ==> r is Ok && final(info).name@ == seq![0x2fu8] && final(info).type_ == 2,
        id != 0x3ff && r is Ok ==> {
            let b = old(lfs).bd.blocks()[dir.pair[0] as int];
            let nmask = 0x780f_fc00u32;
            let ntag = (id as u32 * 0x400 + old(lfs).name_max + 1) as u32;
            let smask = 0x700f_fc00u32;
            let stag = (0x2000_0000u32 + id as u32 * 0x400 + 8) as u32;
            &&& dir_walk(b, dir.off, dir.etag, move_shift(*old(lfs), *dir, nmask, ntag), nmask, ntag) matches Lookup::Found(
                o,
                t,
                gd,
            ) && {
                let tn = wadd(t, gd);
                let n: int = if spec_tag_size(tn) < old(lfs).name_max + 1 { spec_tag_size(tn) as int } else { old(lfs).name_max + 1 };
                &&& final(info).type_ == spec_tag_type3(tn) % 0x100
                &&& final(info).name@ == found_data(b, o, n)
            }
            &&& dir_walk(b, dir.off, dir.etag, move_shift(*old(lfs), *dir, smask, stag), smask, stag) matches Lookup::Found(
                o2,
                t2,
                gd2,
            ) && {
                let ts = wadd(t2, gd2);
                let n2: int = if spec_tag_size(t2) < 8 { spec_tag_size(t2) as int } else { 8 };
                let d = found_data(b, o2, n2) + Seq::new((8 - n2) as nat, |j: int| 0u8);
                &&& spec_tag_type3(ts) == 0x202 ==> final(info).size == le32_of(d.subrange(4, 8))
                &&& spec_tag_type3(ts) == 0x201 ==> final(info).size == spec_tag_size(ts)
                &&& (spec_tag_type3(ts) != 0x202 && spec_tag_type3(ts) != 0x201) ==> final(info).size == old(info).size
            }
        },
        ({
            let ntag = (id as u32 * 0x400 + old(lfs).name_max + 1) as u32;
            let stag = (0x2000_0000u32 + id as u32 * 0x400 + 8) as u32;
            &&& id != 0x3ff && old(lfs).bd.reads_ok() && walk_in_block(
                *old(lfs),
                *dir,
                0x780f_fc00u32,
                ntag,
                0,
                (old(lfs).name_max + 1) as u32,
            ) && walk_in_block(*old(lfs), *dir, 0x700f_fc00u32, stag, 0, 8) ==> r is Ok || r == Err::<(), LfsError>(
                LfsError::NoEnt,
            )
            &&& id != 0x3ff && r == Err::<(), LfsError>(LfsError::NoEnt) ==> lookup_absent(
                *old(lfs),
                *dir,
                0x780f_fc00u32,
                ntag,
            ) || lookup_absent(*old(lfs), *dir, 0x700f_fc00u32, stag)
        }),
{
    if id == 0x3ff {
        info.name = Vec::new();
        info.name.push(0x2f);
        info.type_ = 2;
        proof {
            assert(info.name@ =~= seq![0x2fu8]);
        }
        return Ok(());
    }
    let ghost b = lfs.bd.blocks()[dir.pair[0] as int];
    let name_max = lfs.name_max;
    proof {
        let nmask = 0x780f_fc00u32;
        let ntag_s = (id as u32 * 0x400 + name_max + 1) as u32;
        lemma_walk_shift_aligned(b, dir.off, dir.etag, move_shift(*lfs, *dir, nmask, ntag_s), nmask, ntag_s);
    }
    let ntag = LFS_MKTAG(0, id as u32, name_max + 1);
    proof {
        assert(ntag == (id as u32 * 0x400 + name_max + 1) as u32);
        assert(spec_tag_size(ntag) == name_max + 1);
    }
    let ghost l0 = *lfs;
    let (tag, buf) = lfs_dir_get(lfs, dir, 0x780f_fc00, ntag)?;
    let n = lfs_min(lfs_tag_size(tag), name_max + 1);
    let t3n = lfs_tag_type3(tag);
    proof {
        assert((t3n & 0xffu16) as u8 == t3n % 0x100) by (bit_vector);
    }
    info.type_ = (t3n & 0xff) as u8;
    let mut name: Vec<u8> = Vec::new();
    let mut k: u32 = 0;
    while k < n
        invariant
            k <= n,
            n <= buf@.len(),
            name@ == buf@.subrange(0, k as int),
        decreases n - k,
    {
        name.push(buf[k as usize]);
        k = k + 1;
        proof {
            assert(name@ =~= buf@.subrange(0, k as int));
        }
    }
    info.name = name;
    let stag = LFS_MKTAG(0x200, id as u32, 8);
    proof {
        assert(stag == (0x2000_0000u32 + id as u32 * 0x400 + 8) as u32);
        assert(spec_tag_size(stag) == 8);
        assert(move_shift(*lfs, *dir, 0x700f_fc00u32, stag) == move_shift(l0, *dir, 0x700f_fc00u32, stag));
        assert(moved_away(*lfs, *dir, 0x700f_fc00u32, stag) == moved_away(l0, *dir, 0x700f_fc00u32, stag));
        assert(walk_in_block(*lfs, *dir, 0x700f_fc00u32, stag, 0, 8) == walk_in_block(l0, *dir, 0x700f_fc00u32, stag, 0, 8));
    }
    let (tag2, sbuf) = lfs_dir_get(lfs, dir, 0x700f_fc00, stag)?;
    let t3 = lfs_tag_type3(tag2);
    if t3 == 0x202 {
        info.size = lfs_le32_decode(sbuf.as_slice(), 4);
        proof {
            assert(sbuf@.subrange(4, 8) =~= sbuf@.subrange(4, 8));
        }
    } else if t3 == 0x201 {
        info.size = lfs_tag_size(tag2);
    }
    proof {
        let nmask = 0x780f_fc00u32;
        assert(ntag == (id as u32 * 0x400 + name_max + 1) as u32);
        assert(stag == (0x2000_0000u32 + id as u32 * 0x400 + 8) as u32);
    }
    Ok(())
}


/// Right after an attribute is committed, a lookup that it answers finds
/// it, with its data: the log ends in its tag, and nothing else is read.
pub proof fn lemma_lookup_after_commit(
    b: Seq<u8>,
    off: u32,
    tag: u32,
    ptag: u32,
    payload: Seq<u8>,
    gmask: u32,
    gtag: u32,
)
    requires
        4 <= off,
        off + spec_tag_dsize(tag) <= b.len(),
        off + spec_tag_dsize(tag) <= u32::MAX,
        payload.len() == spec_tag_dsize(tag) - 4,
        tag < 0x8000_0000,
        !spec_tag_isdelete(tag),
        spec_tag_id(gmask) == 0 || (tag / 0x1000_0000) % 8 != 4,
        gmask & tag == gmask & gtag,
    ensures
        ({
            let nb = splice(b, off as int, attr_bytes(tag, ptag, payload));
            &&& dir_walk(nb, (off + spec_tag_dsize(tag)) as u32, tag, 0, gmask, gtag) == Lookup::Found(off, tag, 0)
            &&& nb.subrange(off + 4, off + 4 + payload.len()) == payload
        }),
{
    reveal(dir_walk);
    let nb = splice(b, off as int, attr_bytes(tag, ptag, payload));
    lemma_commitattr_readback(b, off as int, tag, ptag, payload);
    assert(wsub(gtag, 0) == gtag);
    assert(!walk_hit(tag, 0, gmask, gtag));
    assert(walk_step(tag, 0, gmask, gtag) == WalkStep::Found(0));
}

/// A lookup walks back past a later attribute that does not answer it,
/// undoing the xor of its tag, and finds the attribute committed before.
pub proof fn lemma_lookup_skips_later(
    b: Seq<u8>,
    off: u32,
    t1: u32,
    p1: u32,
    d1: Seq<u8>,
    t2: u32,
    d2: Seq<u8>,
    gmask: u32,
    gtag: u32,
)
    requires
        4 <= off,
        off + spec_tag_dsize(t1) + spec_tag_dsize(t2) <= b.len(),
        off + spec_tag_dsize(t1) + spec_tag_dsize(t2) <= u32::MAX,
        d1.len() == spec_tag_dsize(t1) - 4,
        d2.len() == spec_tag_dsize(t2) - 4,
        t1 < 0x8000_0000,
        t2 < 0x8000_0000,
        !spec_tag_isdelete(t1),
        spec_tag_id(gmask) == 0 || ((t1 / 0x1000_0000) % 8 != 4 && (t2 / 0x1000_0000) % 8 != 4),
        gmask & t1 == gmask & gtag,
        gmask & t2 != gmask & gtag,
    ensures
        ({
            let o2 = off + spec_tag_dsize(t1);
            let nb = splice(
                splice(b, off as int, attr_bytes(t1, p1, d1)),
                o2,
                attr_bytes(t2, t1, d2),
            );
            dir_walk(nb, (o2 + spec_tag_dsize(t2)) as u32, t2, 0, gmask, gtag) == Lookup::Found(off, t1, 0)
        }),
{
    reveal(dir_walk);
    let o2 = (off + spec_tag_dsize(t1)) as u32;
    let b1 = splice(b, off as int, attr_bytes(t1, p1, d1));
    let nb = splice(b1, o2 as int, attr_bytes(t2, t1, d2));
    lemma_commitattr_readback(b1, o2 as int, t2, t1, d2);
    lemma_commitattr_readback(b, off as int, t1, p1, d1);
    assert(wsub(gtag, 0) == gtag);
    assert(!walk_hit(t2, 0, gmask, gtag));
    assert(walk_step(t2, 0, gmask, gtag) == WalkStep::Next(0));
    let w = be32_of(nb.subrange(o2 as int, o2 + 4));
    assert(w ^ t1 == t2 & 0x7fff_ffffu32);
    assert((w ^ t2) & 0x7fff_ffffu32 == t1) by (bit_vector)
        requires
            w ^ t1 == t2 & 0x7fff_ffffu32,
            t1 < 0x8000_0000,
            t2 < 0x8000_0000,
    ;
    assert(!walk_hit(t1, 0, gmask, gtag));
    assert(walk_step(t1, 0, gmask, gtag) == WalkStep::Found(0));
    assert(dir_walk(nb, o2, t1, 0, gmask, gtag) == Lookup::Found(off, t1, 0));
}

/// Two lookups find the same attribute: the same tag at the same offset,
/// or nothing at all.
pub open spec fn same_find(a: Lookup, c: Lookup) -> bool {
    match a {
        Lookup::Found(o1, t1, _) => c matches Lookup::Found(o2, t2, _) && o1 == o2 && t1 == t2,
        Lookup::Missing => c is Missing,
    }
}

/// The bit facts about tags that the id-shift rules rest on.
proof fn lemma_splice_tag_bits(m: u32, t: u32, x: u32, g: u32, u: u32, w: u32, p: u32)
    by (bit_vector)
    ensures
        (m / 0x1000_0000) % 8 == 7 && (t / 0x1000_0000) % 8 != (x / 0x1000_0000) % 8 ==> (m & t) != (m & x),
        (t / 0x400) % 0x400 != (g / 0x400) % 0x400 ==> t != (0x4010_0000u32 | (0x000f_fc00u32 & g)),
        (t / 0x100000) % 0x800 != 0x401 ==> t != (0x4010_0000u32 | (0x000f_fc00u32 & g)),
        t == 0x4010_0000 + ((g / 0x400) % 0x400) * 0x400 ==> t == (0x4010_0000u32 | (0x000f_fc00u32 & g)),
        (t / 0x400) % 0x400 < 0x3ff ==> t + 0x400 < 0x1_0000_0000,
        (t / 0x400) % 0x400 >= 1 ==> t >= 0x400,
        u == t + 0x400 && (t / 0x400) % 0x400 < 0x3ff ==> (u / 0x1000_0000) % 8 == (t / 0x1000_0000) % 8 && (u
            / 0x400) % 0x400 == (t / 0x400) % 0x400 + 1,
        w ^ p == t & 0x7fff_ffffu32 && p < 0x8000_0000 && t < 0x8000_0000 ==> (w ^ t) & 0x7fff_ffffu32 == p,
{
}

/// Taking `d` and then `s` off a word is taking `d + s` off it.
proof fn lemma_wsub_wadd(a: u32, d: u32, s: u32)
    ensures
        wsub(a, wadd(d, s)) == wsub(wsub(a, d), s),
{
    let m: int = 0x1_0000_0000;
    let z: int = a + m - d - s;
    vstd::arithmetic::div_mod::lemma_mod_add_multiples_vanish(z, m);
    if d + s < m {
        vstd::arithmetic::div_mod::lemma_small_mod((d + s) as nat, m as nat);
    } else {
        vstd::arithmetic::div_mod::lemma_mod_sub_multiples_vanish(d + s, m);
        vstd::arithmetic::div_mod::lemma_small_mod((d + s - m) as nat, m as nat);
    }
    if a + m - d < m {
        vstd::arithmetic::div_mod::lemma_small_mod((a + m - d) as nat, m as nat);
    } else {
        vstd::arithmetic::div_mod::lemma_mod_sub_multiples_vanish(a + m - d, m);
        vstd::arithmetic::div_mod::lemma_small_mod((a - d) as nat, m as nat);
    }
}

/// A lookup depends on the shift it starts with only through the tag it
/// then looks for: two lookups that look for the same shifted tag find the
/// same attribute.
#[verifier::spinoff_prover]
pub proof fn lemma_walk_same_target(
    b: Seq<u8>,
    off: u32,
    ntag: u32,
    gmask: u32,
    gd1: u32,
    gt1: u32,
    gd2: u32,
    gt2: u32,
)
    requires
        wsub(gt1, gd1) == wsub(gt2, gd2),
    ensures
        same_find(dir_walk(b, off, ntag, gd1, gmask, gt1), dir_walk(b, off, ntag, gd2, gmask, gt2)),
    decreases off,
{
    reveal(dir_walk);
    if off >= 4 + spec_tag_dsize(ntag) {
        let sh = splice_shift(ntag);
        lemma_wsub_wadd(gt1, gd1, sh);
        lemma_wsub_wadd(gt2, gd2, sh);
        assert(walk_hit(ntag, gd1, gmask, gt1) == walk_hit(ntag, gd2, gmask, gt2));
        let noff = (off - spec_tag_dsize(ntag)) as u32;
        match walk_step(ntag, gd1, gmask, gt1) {
            WalkStep::Next(n1) => {
                let n2 = if walk_hit(ntag, gd2, gmask, gt2) { wadd(gd2, sh) } else { gd2 };
                lemma_walk_same_target(
                    b,
                    noff,
                    (be32_of(b.subrange(noff as int, noff + 4)) ^ ntag) & 0x7fff_ffffu32,
                    gmask,
                    n1,
                    gt1,
                    n2,
                    gt2,
                );
            },
            _ => {},
        }
    }
}

/// A lookup reads only the log in front of where it starts: blocks that
/// agree there give the same answer.
pub proof fn lemma_walk_frame(
    b: Seq<u8>,
    b2: Seq<u8>,
    off: u32,
    ntag: u32,
    gdiff: u32,
    gmask: u32,
    gtag: u32,
)
    requires
        off <= b.len(),
        off <= b2.len(),
        forall|i: int| 0 <= i < off ==> #[trigger] b[i] == b2[i],
    ensures
        dir_walk(b, off, ntag, gdiff, gmask, gtag) == dir_walk(b2, off, ntag, gdiff, gmask, gtag),
    decreases off,
{
    reveal(dir_walk);
    if off >= 4 + spec_tag_dsize(ntag) {
        let noff = (off - spec_tag_dsize(ntag)) as u32;
        assert(b.subrange(noff as int, noff + 4) =~= b2.subrange(noff as int, noff + 4));
        if let WalkStep::Next(n) = walk_step(ntag, gdiff, gmask, gtag) {
            lemma_walk_frame(
                b,
                b2,
                noff,
                (be32_of(b.subrange(noff as int, noff + 4)) ^ ntag) & 0x7fff_ffffu32,
                n,
                gmask,
                gtag,
            );
        }
    }
}

/// Committing a delete of id `k` takes entry `k` out of the directory and
/// moves each later entry down one id: after it, looking id `j >= k` up
/// finds what looking id `j + 1` up found before, and a lower id finds what
/// it found before.
#[verifier::spinoff_prover]
pub proof fn lemma_lookup_after_delete(b: Seq<u8>, off: u32, ptag: u32, k: u32, gmask: u32, gtag: u32)
    requires
        off + 4 <= b.len(),
        off + 4 <= u32::MAX,
        ptag < 0x8000_0000,
        k < 0x3ff,
        (gmask / 0x1000_0000) % 8 == 7,
        spec_tag_id(gmask) != 0,
        (gtag / 0x1000_0000) % 8 != 4,
        spec_tag_id(gtag) < 0x3ff,
    ensures
        ({
            let del = spec_mktag(0x4ff, k, 0);
            let nb = splice(b, off as int, attr_bytes(del, ptag, Seq::empty()));
            let after = dir_walk(nb, (off + 4) as u32, del, 0, gmask, gtag);
            &&& spec_tag_id(gtag) >= k ==> same_find(
                after,
                dir_walk(b, off, ptag, 0, gmask, (gtag + 0x400) as u32),
            )
            &&& spec_tag_id(gtag) < k ==> same_find(after, dir_walk(b, off, ptag, 0, gmask, gtag))
        }),
{
    let del = spec_mktag(0x4ff, k, 0);
    let nb = splice(b, off as int, attr_bytes(del, ptag, Seq::empty()));
    let up = (gtag + 0x400) as u32;
    lemma_delete_step(k, gmask, gtag);
    lemma_commitattr_readback(b, off as int, del, ptag, Seq::empty());
    let w = be32_of(nb.subrange(off as int, off + 4));
    lemma_splice_tag_bits(gmask, del, gtag, gtag, up, w, ptag);
    assert(spec_tag_dsize(del) == 4);
    assert(((w ^ del) & 0x7fff_ffffu32) == ptag);
    assert forall|i: int| 0 <= i < off implies #[trigger] nb[i] == b[i] by {}
    assert(dir_walk(nb, (off + 4) as u32, del, 0, gmask, gtag) == dir_walk(
        nb,
        off,
        ptag,
        if spec_tag_id(gtag) >= k { 0xffff_fc00u32 } else { 0 },
        gmask,
        gtag,
    )) by {
        reveal(dir_walk);
    }
    if spec_tag_id(gtag) >= k {
        lemma_walk_frame(b, nb, off, ptag, 0xffff_fc00u32, gmask, gtag);
        lemma_walk_same_target(b, off, ptag, gmask, 0xffff_fc00u32, gtag, 0, up);
    } else {
        lemma_walk_frame(b, nb, off, ptag, 0, gmask, gtag);
        lemma_walk_same_target(b, off, ptag, gmask, 0, gtag, 0, gtag);
    }
}

/// One step of a lookup through a delete of id `k`: ids from `k` on move
/// up one, lower ids stay, and the delete itself is never what is found.
#[verifier::spinoff_prover]
#[verifier::rlimit(60)]
proof fn lemma_delete_step(k: u32, gmask: u32, gtag: u32)
    requires
        k < 0x3ff,
        (gmask / 0x1000_0000) % 8 == 7,
        spec_tag_id(gmask) != 0,
        (gtag / 0x1000_0000) % 8 != 4,
        spec_tag_id(gtag) < 0x3ff,
    ensures
        ({
            let del = spec_mktag(0x4ff, k, 0);
            let up = (gtag + 0x400) as u32;
            &&& gtag + 0x400 < 0x1_0000_0000
            &&& wsub(up, 0) == up
            &&& wsub(gtag, 0) == gtag
            &&& wsub(gtag, 0xffff_fc00u32) == up
            &&& spec_tag_id(gtag) >= k ==> walk_step(del, 0, gmask, gtag) == WalkStep::Next(0xffff_fc00u32)
            &&& spec_tag_id(gtag) < k ==> walk_step(del, 0, gmask, gtag) == WalkStep::Next(0)
        }),
{
    let del = spec_mktag(0x4ff, k, 0);
    let up = (gtag + 0x400) as u32;
    assert(del == 0x4ff0_0000 + k * 0x400);
    assert(del / 0x1000_0000 == 4);
    assert(spec_tag_id(del) == k);
    assert((del / 0x100000) % 0x800 == 0x4ff);
    assert((del / 0x100000) % 0x100 == 0xff);
    lemma_splice_tag_bits(gmask, del, gtag, gtag, up, 0, 0);
    assert(wsub(gtag, 0) == gtag);
    assert(wsub(up, 0) == up);
    assert(wsub(gtag, 0xffff_fc00u32) == up);
    if spec_tag_id(gtag) >= k {
        assert(splice_shift(del) == 0xffff_fc00u32);
        assert(wadd(0, 0xffff_fc00u32) == 0xffff_fc00u32);
        lemma_splice_tag_bits(gmask, del, up, gtag, up, 0, 0);
        assert(walk_hit(del, 0, gmask, gtag));
        assert(walk_step(del, 0, gmask, gtag) == WalkStep::Next(0xffff_fc00u32));
    } else {
        assert(!walk_hit(del, 0, gmask, gtag));
        assert(walk_step(del, 0, gmask, gtag) == WalkStep::Next(0));
    }
}

/// Committing a create of id `k` makes room for a new entry at `k`: after
/// it, looking id `k` up finds nothing, looking a later id `j` up finds what
/// looking id `j - 1` up found before, and a lower id finds what it found
/// before.
#[verifier::spinoff_prover]
pub proof fn lemma_lookup_after_create(b: Seq<u8>, off: u32, ptag: u32, k: u32, gmask: u32, gtag: u32)
    requires
        off + 4 <= b.len(),
        off + 4 <= u32::MAX,
        ptag < 0x8000_0000,
        k < 0x3ff,
        (gmask / 0x1000_0000) % 8 == 7,
        spec_tag_id(gmask) != 0,
        (gtag / 0x1000_0000) % 8 != 4,
    ensures
        ({
            let cr = spec_mktag(0x401, k, 0);
            let nb = splice(b, off as int, attr_bytes(cr, ptag, Seq::empty()));
            let after = dir_walk(nb, (off + 4) as u32, cr, 0, gmask, gtag);
            &&& spec_tag_id(gtag) == k ==> after is Missing
            &&& spec_tag_id(gtag) > k ==> same_find(
                after,
                dir_walk(b, off, ptag, 0, gmask, (gtag - 0x400) as u32),
            )
            &&& spec_tag_id(gtag) < k ==> same_find(after, dir_walk(b, off, ptag, 0, gmask, gtag))
        }),
{
    let cr = spec_mktag(0x401, k, 0);
    let nb = splice(b, off as int, attr_bytes(cr, ptag, Seq::empty()));
    let down = (gtag - 0x400) as u32;
    lemma_create_step(k, gmask, gtag);
    lemma_commitattr_readback(b, off as int, cr, ptag, Seq::empty());
    let w = be32_of(nb.subrange(off as int, off + 4));
    lemma_splice_tag_bits(gmask, cr, gtag, gtag, gtag, w, ptag);
    assert(spec_tag_dsize(cr) == 4);
    assert(((w ^ cr) & 0x7fff_ffffu32) == ptag);
    assert forall|i: int| 0 <= i < off implies #[trigger] nb[i] == b[i] by {}
    if spec_tag_id(gtag) == k {
        assert(dir_walk(nb, (off + 4) as u32, cr, 0, gmask, gtag) is Missing) by {
            reveal(dir_walk);
        }
    } else {
        let sh: u32 = if spec_tag_id(gtag) > k { 0x400 } else { 0 };
        assert(dir_walk(nb, (off + 4) as u32, cr, 0, gmask, gtag) == dir_walk(nb, off, ptag, sh, gmask, gtag)) by {
            reveal(dir_walk);
        }
        lemma_walk_frame(b, nb, off, ptag, sh, gmask, gtag);
        if spec_tag_id(gtag) > k {
            lemma_walk_same_target(b, off, ptag, gmask, 0x400u32, gtag, 0, down);
        } else {
            lemma_walk_same_target(b, off, ptag, gmask, 0, gtag, 0, gtag);
        }
    }
}

/// One step of a lookup through a create of id `k`: id `k` itself is not
/// there before it, ids above `k` move down one, lower ids stay, and the
/// create itself is never what is found.
#[verifier::spinoff_prover]
#[verifier::rlimit(60)]
proof fn lemma_create_step(k: u32, gmask: u32, gtag: u32)
    requires
        k < 0x3ff,
        (gmask / 0x1000_0000) % 8 == 7,
        spec_tag_id(gmask) != 0,
        (gtag / 0x1000_0000) % 8 != 4,
    ensures
        ({
            let cr = spec_mktag(0x401, k, 0);
            let down = (gtag - 0x400) as u32;
            &&& spec_tag_id(gtag) == k ==> walk_step(cr, 0, gmask, gtag) == WalkStep::Missing
            &&& spec_tag_id(gtag) > k ==> walk_step(cr, 0, gmask, gtag) == WalkStep::Next(0x400u32)
                && wsub(gtag, 0x400u32) == down && wsub(down, 0) == down
            &&& spec_tag_id(gtag) < k ==> walk_step(cr, 0, gmask, gtag) == WalkStep::Next(0)
            &&& wsub(gtag, 0) == gtag
        }),
{
    let cr = spec_mktag(0x401, k, 0);
    assert(cr == 0x4010_0000 + k * 0x400);
    assert(cr / 0x1000_0000 == 4);
    assert(spec_tag_id(cr) == k);
    assert((cr / 0x100000) % 0x100 == 0x01);
    lemma_splice_tag_bits(gmask, cr, gtag, gtag, gtag, 0, 0);
    assert(wsub(gtag, 0) == gtag);
    if spec_tag_id(gtag) == k {
        assert(walk_hit(cr, 0, gmask, gtag));
        assert(walk_step(cr, 0, gmask, gtag) == WalkStep::Missing);
    } else if spec_tag_id(gtag) > k {
        let down = (gtag - 0x400) as u32;
        lemma_splice_tag_bits(gmask, cr, down, gtag, gtag, 0, 0);
        lemma_splice_tag_bits(gmask, down, down, gtag, gtag, 0, 0);
        assert(splice_shift(cr) == 0x400u32);
        assert(wadd(0, 0x400u32) == 0x400u32);
        assert(wsub(gtag, 0x400u32) == down);
        assert(wsub(down, 0) == down);
        assert(walk_hit(cr, 0, gmask, gtag));
        assert(walk_step(cr, 0, gmask, gtag) == WalkStep::Next(0x400u32));
    } else {
        assert(!walk_hit(cr, 0, gmask, gtag));
        assert(walk_step(cr, 0, gmask, gtag) == WalkStep::Next(0));
    }
}

/// The position of an open directory.
pub fn lfs_dir_tell_<D: BlockDevice>(lfs: &Lfs<D>, dir: &LfsDir) -> (r: LfsSoff)
    ensures
        r == dir.pos as i32,
{
    dir.pos as LfsSoff
}

} // verus!
