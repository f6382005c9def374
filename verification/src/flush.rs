//! Flushing open files: ending a read, and committing what a write left
//! pending, so that the file's list on the device holds it whole.
use vstd::prelude::*;
use crate::allocator::{lemma_marks_subset, lookahead_ok, marks_all};
use crate::bd::{erased, lfs_cache_drop, BlockDevice};
use crate::ctz::{ctz_index_spec, lfs_index_traverse, same_in_use};
use crate::defines::{LfsBlock, LfsCache, LfsCtz, LfsError, LfsMdir, LfsOpenFlags, LFS_BLOCK_NULL};
use crate::file::{ctz_byte, file_ok, has_flag, lfs_file_flushedread, same_but_io, LfsFile};
use crate::fs::{same_but_rcache, Lfs};
use crate::util::lfs_max;
use crate::write::{
    committed_ok, copy_blocks, lemma_flag_facts, lemma_list_same_blocks, lemma_or_present, lemma_used_start,
    lfs_file_flush_out, lfs_file_flushedwrite, list_blocks, list_ok, open_byte, push_blocks, write_done,
    write_last, write_settled, write_start_ok, writing_ok,
};

verus! {

/// The flags of a file once flushed: a file that was being written is no
/// longer writing and is dirty; one that was reading no longer is.
pub open spec fn flushed_flags(f: u32) -> u32 {
    if f & LfsOpenFlags::Writing.spec_bits() != 0 {
        (f & !LfsOpenFlags::Writing.spec_bits()) | LfsOpenFlags::Dirty.spec_bits()
    } else if f & LfsOpenFlags::Reading.spec_bits() != 0 {
        f & !LfsOpenFlags::Reading.spec_bits()
    } else {
        f
    }
}

/// What flushing a file needs: it is not reading and writing at once, and
/// a file being written to a list of its own is in a state writing can go
/// on from, has written a byte of its block once past the start, and is
/// not at the largest size a word holds.
pub open spec fn flush_ready<D: BlockDevice>(lfs: Lfs<D>, file: LfsFile, in_use: Seq<LfsBlock>) -> bool {
    &&& !(has_flag(file.flags, LfsOpenFlags::Reading) && has_flag(file.flags, LfsOpenFlags::Writing))
    &&& has_flag(file.flags, LfsOpenFlags::Writing) && !has_flag(file.flags, LfsOpenFlags::Inline) ==> {
        &&& write_start_ok(lfs, file, in_use, 0)
        &&& file.pos < u32::MAX
        &&& file.ctz.size < u32::MAX
        &&& (file.pos > 0 || file.ctz.size > 0)
        &&& write_settled(lfs.cfg.block_size, file.pos, file.off)
    }
}

/// What a flush leaves: the file at the same position, neither reading
/// nor writing, reading as before up to its size. A file that was not
/// being written keeps its data and the filesystem is untouched, though a
/// file that was reading its own list drops its cache. A file that was
/// being written is dirty and as long as the farther of its position and
/// its old size; an inline one keeps its cache, while one with a list of
/// its own has that list committed: its head is the block it was writing,
/// a well-formed list on the device that the blocks of `in_use`, kept as
/// they were, do not hold.
pub open spec fn flushed<D: BlockDevice>(
    lfs: Lfs<D>,
    file: LfsFile,
    in_use: Seq<LfsBlock>,
    lfs0: Lfs<D>,
    file0: LfsFile,
) -> bool {
    let bs = lfs0.cfg.block_size;
    let writing = has_flag(file0.flags, LfsOpenFlags::Writing);
    let inline = has_flag(file0.flags, LfsOpenFlags::Inline);
    &&& file.id == file0.id
    &&& file.type_ == file0.type_
    &&& file.m == file0.m
    &&& file.pos == file0.pos
    &&& file.flags == flushed_flags(file0.flags)
    &&& !has_flag(file.flags, LfsOpenFlags::Reading)
    &&& !has_flag(file.flags, LfsOpenFlags::Writing)
    &&& has_flag(file.flags, LfsOpenFlags::Inline) == inline
    &&& writing ==> has_flag(file.flags, LfsOpenFlags::Dirty)
    &&& forall|p: u32| p < file.ctz.size ==> #[trigger] open_byte(lfs, file, p) == open_byte(lfs0, file0, p)
    &&& !writing ==> {
        &&& lfs == lfs0
        &&& forall|p: u32| #[trigger] open_byte(lfs, file, p) == open_byte(lfs0, file0, p)
        &&& file.ctz == file0.ctz
        &&& file.block == file0.block
        &&& file.off == file0.off
        &&& file.cache.off == file0.cache.off
        &&& file.cache.size == file0.cache.size
        &&& file.cache.buffer@ == file0.cache.buffer@
        &&& inline ==> file.cache == file0.cache
        &&& file.cache.block == if !inline && has_flag(file0.flags, LfsOpenFlags::Reading) {
            LFS_BLOCK_NULL
        } else {
            file0.cache.block
        }
    }
    &&& writing ==> file.ctz.size == if file0.pos > file0.ctz.size {
        file0.pos
    } else {
        file0.ctz.size
    }
    &&& writing && inline ==> {
        &&& lfs == lfs0
        &&& file.ctz.head == file0.block
        &&& file.block == file0.block
        &&& file.off == file0.off
        &&& file.cache == file0.cache
    }
    &&& writing && !inline ==> {
        &&& lfs.caches_ok()
        &&& lfs.pcache.block == LFS_BLOCK_NULL
        &&& same_but_io(lfs, lfs0)
        &&& lookahead_ok(lfs.lookahead, lfs.cfg.lookahead_size, lfs.block_count)
        &&& marks_all(lfs.lookahead, lfs.block_count, in_use)
        &&& lfs.bd.blocks().len() == lfs0.bd.blocks().len()
        &&& same_in_use(lfs.bd.blocks(), lfs0.bd.blocks(), in_use)
        &&& file.ctz.head == file.block
        &&& file.ctz.head < lfs.block_count
        &&& !in_use.contains(file.ctz.head)
        &&& list_ok(lfs.bd.blocks(), file.ctz.head, ctz_index_spec(bs, (file.ctz.size - 1) as u32).0)
        &&& file_ok(lfs, file)
    }
}

/// What a failed flush leaves: it was committing a list of the file's
/// own; the filesystem is usable, with the blocks of `in_use` kept, and
/// the file keeps its name and committed list.
pub open spec fn flush_failed<D: BlockDevice>(
    lfs: Lfs<D>,
    file: LfsFile,
    in_use: Seq<LfsBlock>,
    lfs0: Lfs<D>,
    file0: LfsFile,
) -> bool {
    &&& has_flag(file0.flags, LfsOpenFlags::Writing)
    &&& !has_flag(file0.flags, LfsOpenFlags::Inline)
    &&& lfs.caches_ok()
    &&& same_but_io(lfs, lfs0)
    &&& lfs.bd.blocks().len() == lfs0.bd.blocks().len()
    &&& same_in_use(lfs.bd.blocks(), lfs0.bd.blocks(), in_use)
    &&& file.id == file0.id
    &&& file.type_ == file0.type_
    &&& file.m == file0.m
    &&& file.ctz == file0.ctz
}

/// What a state writing can go on from holds.
pub proof fn lemma_start_facts<D: BlockDevice>(lfs: Lfs<D>, file: LfsFile, in_use: Seq<LfsBlock>, len: nat)
    requires
        write_start_ok(lfs, file, in_use, len),
    ensures
        lfs.caches_ok(),
        lfs.cfg.block_size >= 128,
        lfs.pcache.block == LFS_BLOCK_NULL,
        lookahead_ok(lfs.lookahead, lfs.cfg.lookahead_size, lfs.block_count),
        0 < lfs.cfg.lookahead_size <= 0x1000_0000,
        forall|i: int| 0 <= i < in_use.len() ==> #[trigger] in_use[i] < lfs.block_count,
        marks_all(lfs.lookahead, lfs.block_count, in_use),
        file.id < 0x3ff,
        file.pos + len <= u32::MAX,
        !has_flag(file.flags, LfsOpenFlags::Inline) ==> committed_ok(lfs, file, in_use),
        !has_flag(file.flags, LfsOpenFlags::Inline) && has_flag(file.flags, LfsOpenFlags::Writing) ==> {
            &&& writing_ok(lfs, file)
            &&& marks_all(
                lfs.lookahead,
                lfs.block_count,
                list_blocks(
                    crate::bd::overlay(lfs.bd.blocks(), file.cache),
                    file.block,
                    write_last(lfs.cfg.block_size, file.pos, file.off),
                ),
            )
            &&& !in_use.contains(file.block)
        },
{
    reveal(write_start_ok);
}

/// A state writing can go on from stays one when only the read cache
/// changes, for as many more bytes as a word has room for.
pub proof fn lemma_start_again<D: BlockDevice>(
    lfs1: Lfs<D>,
    file: LfsFile,
    lfs2: Lfs<D>,
    in_use: Seq<LfsBlock>,
    len: nat,
)
    requires
        write_start_ok(lfs1, file, in_use, 0),
        lfs2.caches_ok(),
        same_but_rcache(lfs2, lfs1),
        file.pos + len <= u32::MAX,
    ensures
        write_start_ok(lfs2, file, in_use, len),
{
    reveal(write_start_ok);
    let bs = lfs1.cfg.block_size;
    if !has_flag(file.flags, LfsOpenFlags::Inline) {
        assert(committed_ok(lfs2, file, in_use) == committed_ok(lfs1, file, in_use));
        if has_flag(file.flags, LfsOpenFlags::Writing) {
            assert(writing_ok(lfs2, file) == writing_ok(lfs1, file));
        }
    }
}

/// A finished write of at least one byte to a file with a list of its own
/// leaves a state writing can go on from.
pub proof fn lemma_start_from_done<D: BlockDevice>(
    lfs0: Lfs<D>,
    file0: LfsFile,
    lfs: Lfs<D>,
    file: LfsFile,
    in_use: Seq<LfsBlock>,
    data: Seq<u8>,
)
    requires
        write_start_ok(lfs0, file0, in_use, data.len()),
        !has_flag(file0.flags, LfsOpenFlags::Inline),
        data.len() > 0,
        write_done(lfs, file, in_use, lfs0, file0, data),
    ensures
        write_start_ok(lfs, file, in_use, 0),
{
    reveal(write_start_ok);
}

/// Byte `p` of an open file is the same on two filesystems with the same
/// configuration and device.
pub proof fn lemma_open_byte_same<D: BlockDevice>(a: Lfs<D>, b: Lfs<D>, file: LfsFile)
    requires
        a.cfg == b.cfg,
        a.bd == b.bd,
    ensures
        forall|p: u32| #[trigger] open_byte(a, file, p) == open_byte(b, file, p),
{
}

/// A reader of a committed list whose cache names no block stays in step
/// with a device that keeps the blocks of `in_use`, which hold that list.
pub proof fn lemma_reader_kept<D: BlockDevice>(
    lfs1: Lfs<D>,
    lfs2: Lfs<D>,
    f1: LfsFile,
    f2: LfsFile,
    in_use: Seq<LfsBlock>,
)
    requires
        file_ok(lfs1, f1),
        !has_flag(f1.flags, LfsOpenFlags::Inline),
        committed_ok(lfs1, f1, in_use),
        lfs1.cfg.block_size >= 128,
        lfs2.caches_ok(),
        lfs2.cfg == lfs1.cfg,
        lfs2.bd.blocks().len() == lfs1.bd.blocks().len(),
        same_in_use(lfs2.bd.blocks(), lfs1.bd.blocks(), in_use),
        f2.id == f1.id,
        f2.flags == f1.flags,
        f2.ctz == f1.ctz,
        f2.pos == f1.pos,
        f2.block == f1.block,
        f2.off == f1.off,
        f2.cache.block == LFS_BLOCK_NULL,
        f2.cache.buffer@ == f1.cache.buffer@,
    ensures
        file_ok(lfs2, f2),
{
    let bs = lfs1.cfg.block_size;
    let l1 = lfs1.bd.blocks();
    let l2 = lfs2.bd.blocks();
    if has_flag(f2.flags, LfsOpenFlags::Reading) && f2.off != bs && f2.ctz.size > 0 {
        let last = ctz_index_spec(bs, (f1.ctz.size - 1) as u32).0;
        let head = f1.ctz.head;
        let i = ctz_index_spec(bs, f1.pos).0;
        assert forall|j: int| 0 <= j <= last implies #[trigger] l2[list_blocks(l1, head, last)[j] as int]
            == l1[list_blocks(l1, head, last)[j] as int] by {
            let x = list_blocks(l1, head, last)[j];
            assert(in_use.contains(x));
            let w = choose|w: int| 0 <= w < in_use.len() && in_use[w] == x;
        }
        lemma_list_same_blocks(l1, l2, bs, head, last);
        if i <= last {
            assert(crate::ctz::ctz_walk(l2, head, last, i) == list_blocks(l2, head, last)[i as int]);
            assert(crate::ctz::ctz_walk(l1, head, last, i) == list_blocks(l1, head, last)[i as int]);
        }
    }
}

/// Clears the reading flag, keeping the others.
fn clear_reading(flags: u32) -> (r: u32)
    ensures
        r == flags & !LfsOpenFlags::Reading.spec_bits(),
        !has_flag(r, LfsOpenFlags::Reading),
        has_flag(r, LfsOpenFlags::Writing) == has_flag(flags, LfsOpenFlags::Writing),
        has_flag(r, LfsOpenFlags::Inline) == has_flag(flags, LfsOpenFlags::Inline),
{
    proof {
        lemma_flag_facts(flags);
    }
    flags & !LfsOpenFlags::Reading.bits()
}

/// Ends a write: clears the writing flag and sets the dirty one.
fn end_write(flags: u32) -> (r: u32)
    ensures
        r == (flags & !LfsOpenFlags::Writing.spec_bits()) | LfsOpenFlags::Dirty.spec_bits(),
        !has_flag(r, LfsOpenFlags::Writing),
        has_flag(r, LfsOpenFlags::Dirty),
        has_flag(r, LfsOpenFlags::Reading) == has_flag(flags, LfsOpenFlags::Reading),
        has_flag(r, LfsOpenFlags::Inline) == has_flag(flags, LfsOpenFlags::Inline),
{
    proof {
        lemma_flag_facts(flags);
    }
    (flags & !LfsOpenFlags::Writing.bits()) | LfsOpenFlags::Dirty.bits()
}

/// Copies what follows the position of a file being written in its
/// committed list to after it, a byte at a time, through a reader of that
/// list, until the file is as long as its committed list.
#[verifier::rlimit(100)]
#[verifier::spinoff_prover]
fn lfs_file_copy_rest<D: BlockDevice>(lfs: &mut Lfs<D>, in_use: &[LfsBlock], file: &mut LfsFile) -> (r: Result<
    (),
    LfsError,
>)
    requires
        write_start_ok(*old(lfs), *old(file), in_use@, 0),
        has_flag(old(file).flags, LfsOpenFlags::Writing),
        !has_flag(old(file).flags, LfsOpenFlags::Inline),
    ensures
        r is Ok ==> {
            &&& write_start_ok(*final(lfs), *final(file), in_use@, 0)
            &&& final(file).flags == old(file).flags
            &&& final(file).id == old(file).id
            &&& final(file).type_ == old(file).type_
            &&& final(file).m == old(file).m
            &&& final(file).ctz == old(file).ctz
            &&& final(file).pos == if old(file).pos > old(file).ctz.size {
                old(file).pos
            } else {
                old(file).ctz.size
            }
            &&& final(file).pos > old(file).pos ==> write_settled(
                old(lfs).cfg.block_size,
                final(file).pos,
                final(file).off,
            )
            &&& final(file).pos == old(file).pos ==> final(file).off == old(file).off
            &&& forall|p: u32| p < final(file).pos ==> #[trigger] open_byte(*final(lfs), *final(file), p)
                == open_byte(*old(lfs), *old(file), p)
            &&& same_but_io(*final(lfs), *old(lfs))
            &&& final(lfs).bd.blocks().len() == old(lfs).bd.blocks().len()
            &&& same_in_use(final(lfs).bd.blocks(), old(lfs).bd.blocks(), in_use@)
        },
        r is Err ==> flush_failed(*final(lfs), *final(file), in_use@, *old(lfs), *old(file)),
        final(lfs).bd.reads_ok() == old(lfs).bd.reads_ok(),
        final(lfs).bd.writes_ok() == old(lfs).bd.writes_ok(),
        old(lfs).bd.reads_ok() && old(lfs).bd.writes_ok() ==> r is Ok || (r == Err::<(), LfsError>(LfsError::NoSpc)
            && final(lfs).lookahead.ckpoint == 0),
{
    let ghost lfs0 = *lfs;
    let ghost file0 = *file;
    let ghost bs = lfs.cfg.block_size;
    proof {
        lemma_start_facts(lfs0, file0, in_use@, 0);
        lemma_flag_facts(LfsOpenFlags::RdOnly.spec_bits());
    }
    let mut orig = LfsFile {
        id: 0,
        type_: 0,
        m: LfsMdir {
            pair: [0, 0],
            rev: 0,
            off: 0,
            etag: 0,
            count: 0,
            erased: false,
            split: false,
            tail: [0, 0],
        },
        ctz: LfsCtz { head: file.ctz.head, size: file.ctz.size },
        flags: LfsOpenFlags::RdOnly.bits(),
        pos: file.pos,
        block: 0,
        off: 0,
        cache: LfsCache { block: LFS_BLOCK_NULL, off: 0, size: 0, buffer: erased(lfs.cfg.cache_size as usize) },
    };
    lfs_cache_drop(&mut lfs.rcache);
    proof {
        lemma_start_again(lfs0, file0, *lfs, in_use@, 0);
        lemma_open_byte_same(*lfs, lfs0, file0);
    }
    while file.pos < file.ctz.size
        invariant
            lfs0 == *old(lfs),
            file0 == *old(file),
            bs == lfs0.cfg.block_size,
            write_start_ok(*lfs, *file, in_use@, 0),
            has_flag(file.flags, LfsOpenFlags::Writing),
            !has_flag(file.flags, LfsOpenFlags::Inline),
            file.flags == file0.flags,
            file.id == file0.id,
            file.type_ == file0.type_,
            file.m == file0.m,
            file.ctz == file0.ctz,
            file0.pos <= file.pos,
            file.pos == file0.pos || file.pos <= file0.ctz.size,
            file.pos > file0.pos ==> write_settled(bs, file.pos, file.off),
            file.pos == file0.pos ==> file.off == file0.off,
            forall|p: u32| p < file.pos ==> #[trigger] open_byte(*lfs, *file, p) == open_byte(lfs0, file0, p),
            forall|p: u32|
                file.pos <= p < file0.ctz.size ==> #[trigger] open_byte(*lfs, *file, p) == open_byte(lfs0, file0, p),
            same_but_io(*lfs, lfs0),
            lfs.bd.blocks().len() == lfs0.bd.blocks().len(),
            same_in_use(lfs.bd.blocks(), lfs0.bd.blocks(), in_use@),
            file_ok(*lfs, orig),
            !has_flag(orig.flags, LfsOpenFlags::Inline),
            orig.ctz == file0.ctz,
            orig.pos == file.pos,
            lfs.bd.reads_ok() == lfs0.bd.reads_ok(),
            lfs.bd.writes_ok() == lfs0.bd.writes_ok(),
        decreases file0.ctz.size - file.pos,
    {
        let ghost lk = *lfs;
        let ghost fk = *file;
        proof {
            lemma_start_facts(lk, fk, in_use@, 0);
            if fk.ctz.size > 0 {
                let last = ctz_index_spec(bs, (fk.ctz.size - 1) as u32).0;
                let lb = list_blocks(lk.bd.blocks(), fk.ctz.head, last);
                assert(lb[last as int] == fk.ctz.head);
                assert(crate::ctz::ctz_chain_ok(lk.bd.blocks(), lb, last as int) && lb[last as int] == fk.ctz.head);
            }
            assert(crate::file::list_holds(lk.bd.blocks(), bs, orig.ctz.head, orig.ctz.size));
        }
        let rd = lfs_file_flushedread(lfs, &mut orig, 1);
        let v = match rd {
            Ok(v) => v,
            Err(e) => {
                return Err(e);
            },
        };
        let ghost la = *lfs;
        let ghost oa = orig;
        proof {
            lemma_start_again(lk, fk, la, in_use@, 1);
            lemma_start_facts(la, fk, in_use@, 1);
            lemma_open_byte_same(la, lk, fk);
            assert(v@.len() == 1);
            assert(v@[0] == open_byte(lfs0, file0, fk.pos)) by {
                assert(v@[0] == ctz_byte(lk.bd.blocks(), bs, fk.ctz.head, fk.ctz.size, fk.pos));
                assert(open_byte(lk, fk, fk.pos) == open_byte(lfs0, file0, fk.pos));
            }
        }
        let wr = lfs_file_flushedwrite(lfs, in_use, file, v.as_slice());
        if let Err(e) = wr {
            return Err(e);
        }
        let ghost l2 = *lfs;
        let ghost f2 = *file;
        lfs_cache_drop(&mut orig.cache);
        lfs_cache_drop(&mut lfs.rcache);
        proof {
            lemma_start_from_done(la, fk, l2, f2, in_use@, v@);
            lemma_start_again(l2, f2, *lfs, in_use@, 0);
            lemma_or_present(fk.flags);
            lemma_open_byte_same(*lfs, l2, f2);
            assert(committed_ok(la, oa, in_use@) == committed_ok(la, fk, in_use@));
            lemma_reader_kept(la, *lfs, oa, orig, in_use@);
            assert forall|p: u32| p < file.pos implies #[trigger] open_byte(*lfs, *file, p) == open_byte(lfs0, file0, p) by {
                if p < fk.pos {
                    assert(open_byte(l2, f2, p) == open_byte(la, fk, p));
                } else {
                    assert(open_byte(l2, f2, (fk.pos + 0) as u32) == v@[0]);
                }
            }
            assert forall|p: u32| file.pos <= p < file0.ctz.size implies #[trigger] open_byte(*lfs, *file, p) == open_byte(lfs0, file0, p) by {
                assert(open_byte(l2, f2, p) == open_byte(la, fk, p));
            }
            assert forall|j: int| 0 <= j < in_use@.len() implies #[trigger] lfs.bd.blocks()[in_use@[j] as int]
                == lfs0.bd.blocks()[in_use@[j] as int] by {
                assert(l2.bd.blocks()[in_use@[j] as int] == la.bd.blocks()[in_use@[j] as int]);
                assert(lk.bd.blocks()[in_use@[j] as int] == lfs0.bd.blocks()[in_use@[j] as int]);
            }
        }
    }
    Ok(())
}

/// Flushes a file. A file that was reading stops, dropping the cache of
/// its own list. A file that was being written with a list of its own has
/// the rest of its committed list copied after its position, then its
/// pending bytes written out, moving to a new block when the device finds
/// one bad; the list it wrote becomes its committed one, as long as the
/// farther of its position and its old size. An inline file just takes
/// that size. Either way it keeps its position, is dirty and no longer
/// writing, and reads as before.
#[verifier::rlimit(100)]
#[verifier::spinoff_prover]
pub fn lfs_file_flush<D: BlockDevice>(lfs: &mut Lfs<D>, in_use: &[LfsBlock], file: &mut LfsFile) -> (r: Result<
    (),
    LfsError,
>)
    requires
        old(lfs).caches_ok(),
        old(lfs).cfg.block_size >= 128,
        flush_ready(*old(lfs), *old(file), in_use@),
    ensures
        !has_flag(old(file).flags, LfsOpenFlags::Writing) || has_flag(old(file).flags, LfsOpenFlags::Inline) ==> r is Ok,
        r is Ok ==> flushed(*final(lfs), *final(file), in_use@, *old(lfs), *old(file)),
        r is Err ==> flush_failed(*final(lfs), *final(file), in_use@, *old(lfs), *old(file)),
        final(lfs).bd.reads_ok() == old(lfs).bd.reads_ok(),
        final(lfs).bd.writes_ok() == old(lfs).bd.writes_ok(),
        old(lfs).bd.reads_ok() && old(lfs).bd.writes_ok() ==> r is Ok || (r == Err::<(), LfsError>(LfsError::NoSpc)
            && final(lfs).lookahead.ckpoint == 0),
{
    let ghost lfs0 = *lfs;
    let ghost file0 = *file;
    let ghost bs = lfs.cfg.block_size;
    if file.flags & LfsOpenFlags::Reading.bits() != 0 {
        if file.flags & LfsOpenFlags::Inline.bits() == 0 {
            lfs_cache_drop(&mut file.cache);
        }
        file.flags = clear_reading(file.flags);
    }
    if file.flags & LfsOpenFlags::Writing.bits() == 0 {
        proof {
            assert forall|p: u32| #[trigger] open_byte(*lfs, *file, p) == open_byte(lfs0, file0, p) by {}
        }
        return Ok(());
    }
    let pos = file.pos;
    let ghost mut l1 = *lfs;
    let ghost mut f1 = *file;
    let ghost mut l2 = *lfs;
    if file.flags & LfsOpenFlags::Inline.bits() == 0 {
        let cr = lfs_file_copy_rest(lfs, in_use, file);
        if let Err(e) = cr {
            return Err(e);
        }
        proof {
            l1 = *lfs;
            f1 = *file;
        }
        let bsz = lfs.cfg.block_size;
        let bc = lfs.block_count;
        proof {
            lemma_start_facts(l1, f1, in_use@, 0);
        }
        let tsize = if file.off == bsz {
            file.pos
        } else {
            file.pos + 1
        };
        proof {
            let li = write_last(bs, f1.pos, f1.off);
            let v = crate::bd::overlay(lfs.bd.blocks(), file.cache);
            let lb = list_blocks(v, file.block, li);
            assert(ctz_index_spec(bs, (tsize - 1) as u32).0 == li);
            assert(lb[li as int] == file.block);
            assert(crate::bd::logical(lfs.bd.blocks(), Some(&file.cache)) == v);
            assert(crate::ctz::ctz_chain_ok(v, lb, li as int) && lb[li as int] == file.block);
        }
        let tr = lfs_index_traverse(&lfs.cfg, &lfs.bd, bc, Some(&file.cache), &mut lfs.rcache, file.block, tsize);
        let trav = match tr {
            Ok(t) => t,
            Err(e) => {
                return Err(e);
            },
        };
        let mut used = copy_blocks(in_use);
        proof {
            let li = write_last(bs, f1.pos, f1.off);
            let v = crate::bd::overlay(lfs.bd.blocks(), file.cache);
            assert(ctz_index_spec(bs, (tsize - 1) as u32).0 == li);
            lemma_used_start(lfs.lookahead, lfs.block_count, in_use@, v, file.block, li, trav@);
        }
        push_blocks(&mut used, &trav);
        proof {
            l2 = *lfs;
        }
        let ghost used0 = used@;
        proof {
            assert(used@ == in_use@ + trav@);
            assert forall|i: int| 0 <= i < used@.len() implies #[trigger] used@[i] < bc by {
                if i >= in_use@.len() {
                    assert(used@[i] == trav@[i - in_use@.len()]);
                }
            }
        }
        let fo = lfs_file_flush_out(lfs, &mut used, file);
        if let Err(e) = fo {
            proof {
                assert forall|j: int| 0 <= j < in_use@.len() implies #[trigger] lfs.bd.blocks()[in_use@[j] as int]
                    == lfs0.bd.blocks()[in_use@[j] as int] by {
                    assert(used0[j] == in_use@[j]);
                    assert(in_use@.contains(in_use@[j]));
                }
            }
            return Err(e);
        }
        proof {
            let lf = *lfs;
            let li = ctz_index_spec(bs, (f1.pos - 1) as u32).0;
            assert forall|j: int| 0 <= j < in_use@.len() implies #[trigger] lf.bd.blocks()[in_use@[j] as int]
                == lfs0.bd.blocks()[in_use@[j] as int] by {
                assert(used0[j] == in_use@[j]);
                assert(in_use@.contains(in_use@[j]));
            }
            assert forall|i: int| 0 <= i < in_use@.len() implies used@.contains(#[trigger] in_use@[i]) by {
                assert(used@[i] == used0[i]);
            }
            lemma_marks_subset(lf.lookahead, lf.block_count, used@, in_use@);
            if in_use@.contains(file.block) {
                let w = choose|w: int| 0 <= w < in_use@.len() && in_use@[w] == file.block;
                assert(used0[w] == file.block);
            }
        }
    } else {
        file.pos = lfs_max(file.pos, file.ctz.size);
    }
    let ghost lb = *lfs;
    let ghost fb = *file;
    proof {
        lemma_or_present(file0.flags);
        assert(fb.flags == file0.flags);
    }
    file.ctz.head = file.block;
    file.ctz.size = file.pos;
    file.flags = end_write(file.flags);
    file.pos = pos;
    proof {
        if !has_flag(file0.flags, LfsOpenFlags::Inline) {
            let li = ctz_index_spec(bs, (fb.pos - 1) as u32).0;
            lemma_open_byte_same(l2, l1, f1);
            assert forall|p: u32| p < file.ctz.size implies #[trigger] open_byte(*lfs, *file, p) == open_byte(
                lfs0,
                file0,
                p,
            ) by {
                assert(open_byte(*lfs, *file, p) == crate::write::list_byte(lfs.bd.blocks(), bs, fb.block, li, p));
            }
        }
    }
    Ok(())
}

} // verus!
