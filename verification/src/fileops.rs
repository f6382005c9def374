//! The operations an open file offers its user: writing at its position
//! (or its end), reading from it, and moving its position.
use vstd::prelude::*;
use crate::allocator::{lookahead_ok, marks_all};
use crate::bd::{rcache_ok, BlockDevice};
use crate::ctz::same_in_use;
use crate::defines::{LfsBlock, LfsError, LfsOff, LfsOpenFlags, LfsSize, LfsSoff, LfsWhenceFlags, LFS_BLOCK_INLINE, LFS_BLOCK_NULL};
use crate::ctz::lfs_ctz_index;
use crate::file::{getread_fits, inline_cache_covers, list_holds, lfs_file_size_, ctz_byte, file_ok, has_flag, inline_data, lfs_file_flushedread, read_len, same_but_io, LfsFile};
use crate::flush::{flush_failed, flush_ready, flushed, lfs_file_flush};
use crate::fs::Lfs;
use crate::mdir::lookup_absent;
use crate::tag::spec_mktag;
use crate::write::{
    committed_ok, lemma_flag_facts, lfs_file_flushedwrite, list_blocks, open_byte, write_failed,
    write_last, write_start_ok, writing_ok,
};

verus! {

/// Whether a file was opened for writing.
pub open spec fn is_writable(flags: u32) -> bool {
    flags & LfsOpenFlags::WrOnly.spec_bits() == LfsOpenFlags::WrOnly.spec_bits()
}

/// Where a write to `file` starts: its end when it appends and is before
/// it, else its position.
pub open spec fn write_start_pos(file: LfsFile) -> u32 {
    if has_flag(file.flags, LfsOpenFlags::Append) && file.pos < file.ctz.size {
        file.ctz.size
    } else {
        file.pos
    }
}

/// What writing to an open file needs: usable caches and allocator,
/// `in_use` (the blocks the rest of the filesystem holds) marked, and the
/// file in a state of an open file: not reading and writing at once, an
/// appending file being written past its end; an inline file with its
/// data in its cache, small enough to stay inline, written only at its
/// position; a file with a list of its own whose committed list is well
/// formed and in `in_use`, and whose cache caches the device or, while it
/// is written, holds what its list has pending.
pub open spec fn file_write_ready<D: BlockDevice>(lfs: Lfs<D>, file: LfsFile, in_use: Seq<LfsBlock>) -> bool {
    let bs = lfs.cfg.block_size;
    let writing = has_flag(file.flags, LfsOpenFlags::Writing);
    &&& lfs.caches_ok()
    &&& bs >= 128
    &&& lfs.pcache.block == LFS_BLOCK_NULL
    &&& lookahead_ok(lfs.lookahead, lfs.cfg.lookahead_size, lfs.block_count)
    &&& 0 < lfs.cfg.lookahead_size <= 0x1000_0000
    &&& forall|i: int| 0 <= i < in_use.len() ==> #[trigger] in_use[i] < lfs.block_count
    &&& marks_all(lfs.lookahead, lfs.block_count, in_use)
    &&& file.id < 0x3ff
    &&& !(has_flag(file.flags, LfsOpenFlags::Reading) && writing)
    &&& has_flag(file.flags, LfsOpenFlags::Append) && writing ==> file.pos >= file.ctz.size
    &&& has_flag(file.flags, LfsOpenFlags::Inline) ==> {
        &&& file.cache.block == LFS_BLOCK_INLINE
        &&& file.cache.off == 0
        &&& file.cache.size == lfs.cfg.cache_size
        &&& file.cache.buffer@.len() == lfs.cfg.cache_size
        &&& file.ctz.size <= lfs.inline_max
        &&& lfs.inline_max <= lfs.cfg.cache_size
        &&& lfs.inline_max < bs
        &&& writing ==> file.off == file.pos && file.pos <= lfs.inline_max
        &&& file.m.pair[0] < lfs.block_count
        &&& in_use.contains(file.m.pair[0])
    }
    &&& !has_flag(file.flags, LfsOpenFlags::Inline) ==> {
        &&& file.cache.size <= lfs.cfg.cache_size
        &&& committed_ok(lfs, file, in_use)
        &&& writing ==> {
            &&& writing_ok(lfs, file)
            &&& marks_all(
                lfs.lookahead,
                lfs.block_count,
                list_blocks(crate::bd::overlay(lfs.bd.blocks(), file.cache), file.block, write_last(bs, file.pos, file.off)),
            )
            &&& !in_use.contains(file.block)
        }
        &&& !writing ==> rcache_ok(lfs.cfg, lfs.bd.blocks(), file.cache)
    }
}

/// Whether an inline file stays inline through a write of `len` bytes:
/// it is no longer than the largest inline size after it.
pub open spec fn stays_inline<D: BlockDevice>(lfs: Lfs<D>, file: LfsFile, len: nat) -> bool {
    (if write_start_pos(file) + len > file.ctz.size {
        write_start_pos(file) + len
    } else {
        file.ctz.size as int
    }) <= lfs.inline_max
}

/// What a write of `data` to `file0` leaves: the filesystem usable, the
/// blocks in `in_use` kept and marked, the file past `data`, which starts
/// where the write started, with zeros between the file's old end and
/// that start when it started past the end, and as before elsewhere
/// before it; a file with a list of its own reads as before past `data`
/// up to its old end. The file is no longer reading nor erred.
pub open spec fn written<D: BlockDevice>(
    lfs: Lfs<D>,
    file: LfsFile,
    in_use: Seq<LfsBlock>,
    lfs0: Lfs<D>,
    file0: LfsFile,
    data: Seq<u8>,
) -> bool {
    let start = write_start_pos(file0);
    let n = data.len();
    let writing0 = has_flag(file0.flags, LfsOpenFlags::Writing);
    &&& lfs.caches_ok()
    &&& lfs.pcache.block == LFS_BLOCK_NULL
    &&& same_but_io(lfs, lfs0)
    &&& lookahead_ok(lfs.lookahead, lfs.cfg.lookahead_size, lfs.block_count)
    &&& marks_all(lfs.lookahead, lfs.block_count, in_use)
    &&& lfs.bd.blocks().len() == lfs0.bd.blocks().len()
    &&& same_in_use(lfs.bd.blocks(), lfs0.bd.blocks(), in_use)
    &&& file.id == file0.id
    &&& file.type_ == file0.type_
    &&& file.m == file0.m
    &&& file.ctz == file0.ctz
    &&& file.pos == start + n
    &&& !has_flag(file.flags, LfsOpenFlags::Erred)
    &&& !has_flag(file.flags, LfsOpenFlags::Reading)
    &&& !has_flag(file0.flags, LfsOpenFlags::Inline) ==> !has_flag(file.flags, LfsOpenFlags::Inline)
    &&& n > 0 ==> has_flag(file.flags, LfsOpenFlags::Writing)
    &&& forall|p: u32|
        p < start ==> #[trigger] open_byte(lfs, file, p) == if !writing0 && file0.ctz.size <= p {
            0u8
        } else {
            open_byte(lfs0, file0, p)
        }
    &&& forall|j: int| 0 <= j < n ==> #[trigger] open_byte(lfs, file, (start + j) as u32) == data[j]
    &&& !has_flag(file0.flags, LfsOpenFlags::Inline) ==> forall|p: u32|
        file.pos <= p < file0.ctz.size ==> #[trigger] open_byte(lfs, file, p) == open_byte(lfs0, file0, p)
}

/// A file ready to be written, once it is no longer reading and its
/// position is where its bytes go, is in a state writing goes on from.
pub proof fn lemma_ready_start<D: BlockDevice>(
    lfs: Lfs<D>,
    f0: LfsFile,
    f1: LfsFile,
    in_use: Seq<LfsBlock>,
    len: nat,
)
    requires
        file_write_ready(lfs, f0, in_use),
        f1.id == f0.id,
        f1.type_ == f0.type_,
        f1.m == f0.m,
        f1.ctz == f0.ctz,
        f1.block == f0.block,
        f1.off == f0.off,
        f1.cache.off == f0.cache.off,
        f1.cache.size == f0.cache.size,
        f1.cache.buffer@ == f0.cache.buffer@,
        f1.cache.block == f0.cache.block || (!has_flag(f0.flags, LfsOpenFlags::Inline) && !has_flag(
            f0.flags,
            LfsOpenFlags::Writing,
        ) && f1.cache.block == LFS_BLOCK_NULL),
        has_flag(f1.flags, LfsOpenFlags::Inline) == has_flag(f0.flags, LfsOpenFlags::Inline),
        has_flag(f1.flags, LfsOpenFlags::Writing) == has_flag(f0.flags, LfsOpenFlags::Writing),
        has_flag(f0.flags, LfsOpenFlags::Inline) || has_flag(f0.flags, LfsOpenFlags::Writing) ==> f1.cache
            == f0.cache,
        has_flag(f0.flags, LfsOpenFlags::Writing) ==> f1.pos == f0.pos,
        !has_flag(f0.flags, LfsOpenFlags::Writing) ==> f1.pos <= f0.ctz.size,
        f1.pos + len <= u32::MAX,
    ensures
        write_start_ok(lfs, f1, in_use, len),
{
    reveal(write_start_ok);
    if !has_flag(f0.flags, LfsOpenFlags::Inline) {
        assert(committed_ok(lfs, f1, in_use) == committed_ok(lfs, f0, in_use));
        if has_flag(f0.flags, LfsOpenFlags::Writing) {
            assert(writing_ok(lfs, f1) == writing_ok(lfs, f0));
        }
    }
}

/// Byte `p` of an open file depends on its committed list, its inline and
/// writing flags and its cache's bytes, and, while it is written, on its
/// position, block, offset and cache.
pub proof fn lemma_open_byte_flags<D: BlockDevice>(lfs: Lfs<D>, f1: LfsFile, f2: LfsFile)
    requires
        f2.ctz == f1.ctz,
        f2.cache.buffer@ == f1.cache.buffer@,
        has_flag(f2.flags, LfsOpenFlags::Inline) == has_flag(f1.flags, LfsOpenFlags::Inline),
        has_flag(f2.flags, LfsOpenFlags::Writing) == has_flag(f1.flags, LfsOpenFlags::Writing),
        has_flag(f1.flags, LfsOpenFlags::Writing) ==> {
            &&& f2.pos == f1.pos
            &&& f2.block == f1.block
            &&& f2.off == f1.off
            &&& f2.cache == f1.cache
        },
    ensures
        forall|p: u32| #[trigger] open_byte(lfs, f2, p) == open_byte(lfs, f1, p),
{
}

/// `gap` zero bytes followed by `data`.
fn zero_filled(gap: u32, data: &[u8]) -> (v: Vec<u8>)
    ensures
        v@ == Seq::new(gap as nat, |j: int| 0u8) + data@,
{
    let mut v: Vec<u8> = Vec::new();
    let mut i: u32 = 0;
    while i < gap
        invariant
            i <= gap,
            v@ == Seq::new(i as nat, |j: int| 0u8),
        decreases gap - i,
    {
        v.push(0);
        i = i + 1;
        proof {
            assert(v@ =~= Seq::new(i as nat, |j: int| 0u8));
        }
    }
    let mut k: usize = 0;
    while k < data.len()
        invariant
            k <= data@.len(),
            v@ == Seq::new(gap as nat, |j: int| 0u8) + data@.subrange(0, k as int),
        decreases data@.len() - k,
    {
        v.push(data[k]);
        k = k + 1;
        proof {
            assert(v@ =~= Seq::new(gap as nat, |j: int| 0u8) + data@.subrange(0, k as int));
        }
    }
    proof {
        assert(data@.subrange(0, data@.len() as int) =~= data@);
    }
    v
}

/// Clears the erred flag, keeping the others.
fn clear_erred(flags: u32) -> (r: u32)
    ensures
        !has_flag(r, LfsOpenFlags::Erred),
        has_flag(r, LfsOpenFlags::Writing) == has_flag(flags, LfsOpenFlags::Writing),
        has_flag(r, LfsOpenFlags::Inline) == has_flag(flags, LfsOpenFlags::Inline),
        has_flag(r, LfsOpenFlags::Reading) == has_flag(flags, LfsOpenFlags::Reading),
{
    proof {
        lemma_flag_facts(flags);
    }
    flags & !LfsOpenFlags::Erred.bits()
}

/// Writes `data` to an open file: at its end if it appends, else at its
/// position, filling with zeros from its end when the position is past
/// it, and returns how many bytes were written. A file not opened for
/// writing is refused, and so is a write that would take the file past
/// the largest file size. A file that was reading stops first. A failed
/// write leaves the file erred; a finished one clears that.
#[verifier::rlimit(100)]
#[verifier::spinoff_prover]
pub fn lfs_file_write_<D: BlockDevice>(
    lfs: &mut Lfs<D>,
    in_use: &[LfsBlock],
    file: &mut LfsFile,
    data: &[u8],
) -> (r: Result<LfsSize, LfsError>)
    requires
        file_write_ready(*old(lfs), *old(file), in_use@),
        data@.len() <= u32::MAX,
    ensures
        !is_writable(old(file).flags) ==> r == Err::<LfsSize, LfsError>(LfsError::BadF) && *final(lfs) == *old(lfs)
            && *final(file) == *old(file),
        is_writable(old(file).flags) && write_start_pos(*old(file)) + data@.len() > old(lfs).file_max ==> {
            &&& r == Err::<LfsSize, LfsError>(LfsError::FBig)
            &&& *final(lfs) == *old(lfs)
            &&& final(file).pos == write_start_pos(*old(file))
            &&& final(file).ctz == old(file).ctz
            &&& final(file).id == old(file).id
            &&& final(file).m == old(file).m
        },
        r matches Ok(n) ==> n == data@.len() && written(*final(lfs), *final(file), in_use@, *old(lfs), *old(file), data@),
        r is Err && is_writable(old(file).flags) && write_start_pos(*old(file)) + data@.len() <= old(lfs).file_max
            ==> write_failed(*final(lfs), *final(file), in_use@, *old(lfs), *old(file)),
        is_writable(old(file).flags) && write_start_pos(*old(file)) + data@.len() <= old(lfs).file_max && has_flag(
            old(file).flags,
            LfsOpenFlags::Inline,
        ) && stays_inline(*old(lfs), *old(file), data@.len()) ==> r is Ok,
        is_writable(old(file).flags) && write_start_pos(*old(file)) + data@.len() <= old(lfs).file_max && old(
            lfs,
        ).bd.reads_ok() && old(lfs).bd.writes_ok() && (!has_flag(old(file).flags, LfsOpenFlags::Inline)
            || stays_inline(*old(lfs), *old(file), data@.len())) ==> r is Ok || r == Err::<LfsSize, LfsError>(
            LfsError::NoSpc,
        ),
        is_writable(old(file).flags) && write_start_pos(*old(file)) + data@.len() <= old(lfs).file_max && old(
            lfs,
        ).bd.reads_ok() && old(lfs).bd.writes_ok() ==> r is Ok || (r == Err::<LfsSize, LfsError>(LfsError::NoSpc)
            && final(lfs).lookahead.ckpoint == 0),
{
    let ghost lfs0 = *lfs;
    let ghost file0 = *file;
    if file.flags & LfsOpenFlags::WrOnly.bits() != LfsOpenFlags::WrOnly.bits() {
        return Err(LfsError::BadF);
    }
    if file.flags & LfsOpenFlags::Reading.bits() != 0 {
        let fr = lfs_file_flush(lfs, in_use, file);
        if let Err(e) = fr {
            return Err(e);
        }
    }
    proof {
        lemma_flag_facts(file0.flags);
    }
    let ghost f1 = *file;
    if file.flags & LfsOpenFlags::Append.bits() != 0 && file.pos < file.ctz.size {
        file.pos = file.ctz.size;
    }
    let size = data.len() as u32;
    let end = file.pos.checked_add(size);
    match end {
        None => {
            return Err(LfsError::FBig);
        },
        Some(e) => {
            if e > lfs.file_max {
                return Err(LfsError::FBig);
            }
        },
    }
    let ghost start = file.pos;
    let ghost mut fa = *file;
    let ghost mut wdata = data@;
    proof {
        lemma_open_byte_flags(lfs0, f1, fa);
        assert forall|p: u32| #[trigger] open_byte(lfs0, fa, p) == open_byte(lfs0, file0, p) by {
            assert(open_byte(lfs0, fa, p) == open_byte(lfs0, f1, p));
        }
    }
    let wr;
    if file.flags & LfsOpenFlags::Writing.bits() == 0 && file.pos > file.ctz.size {
        let gap = file.pos - file.ctz.size;
        file.pos = file.ctz.size;
        let buf = zero_filled(gap, data);
        proof {
            lemma_ready_start(lfs0, file0, *file, in_use@, buf@.len());
            lemma_open_byte_flags(lfs0, fa, *file);
            fa = *file;
            wdata = buf@;
        }
        wr = lfs_file_flushedwrite(lfs, in_use, file, buf.as_slice());
    } else {
        proof {
            lemma_ready_start(lfs0, file0, *file, in_use@, data@.len());
        }
        wr = lfs_file_flushedwrite(lfs, in_use, file, data);
    }
    if let Err(e) = wr {
        return Err(e);
    }
    let ghost fw = *file;
    file.flags = clear_erred(file.flags);
    proof {
        lemma_flag_facts(fa.flags);
        lemma_open_byte_flags(*lfs, fw, *file);
        assert(wdata.len() == (start - fa.pos) + data@.len());
        assert forall|p: u32| p < start implies #[trigger] open_byte(*lfs, *file, p) == (if !has_flag(
            file0.flags,
            LfsOpenFlags::Writing,
        ) && file0.ctz.size <= p {
            0u8
        } else {
            open_byte(lfs0, file0, p)
        }) by {
            assert(open_byte(*lfs, *file, p) == open_byte(*lfs, fw, p));
            if p < fa.pos {
                assert(open_byte(*lfs, fw, p) == open_byte(lfs0, fa, p));
            } else {
                let j = p - fa.pos;
                assert(open_byte(*lfs, fw, (fa.pos + j) as u32) == wdata[j]);
            }
        }
        assert forall|j: int| 0 <= j < data@.len() implies #[trigger] open_byte(*lfs, *file, (start + j) as u32)
            == data@[j] by {
            let k = j + (start - fa.pos);
            assert(open_byte(*lfs, fw, (fa.pos + k) as u32) == wdata[k]);
            assert(open_byte(*lfs, *file, (start + j) as u32) == open_byte(*lfs, fw, (start + j) as u32));
        }
    }
    Ok(size)
}

/// How long a file reads as: while it is written, the farther of its
/// position and its committed size, else its committed size.
pub open spec fn open_size(file: LfsFile) -> u32 {
    if has_flag(file.flags, LfsOpenFlags::Writing) && file.pos > file.ctz.size {
        file.pos
    } else {
        file.ctz.size
    }
}

/// Reads up to `size` bytes from an open file at its position, first
/// committing what a write left pending, and moves the position past
/// them. A read at or past the end gets nothing; one that would pass the
/// end stops there. A file with a list of its own reads as it stood; an
/// inline one that is not being written reads its recorded data.
#[verifier::rlimit(100)]
pub fn lfs_file_read_<D: BlockDevice>(
    lfs: &mut Lfs<D>,
    in_use: &[LfsBlock],
    file: &mut LfsFile,
    size: LfsSize,
) -> (r: Result<Vec<u8>, LfsError>)
    requires
        old(lfs).caches_ok(),
        old(lfs).cfg.block_size >= 128,
        old(file).flags & LfsOpenFlags::RdOnly.spec_bits() == LfsOpenFlags::RdOnly.spec_bits(),
        flush_ready(*old(lfs), *old(file), in_use@),
        !has_flag(old(file).flags, LfsOpenFlags::Writing) ==> file_ok(*old(lfs), *old(file)),
        has_flag(old(file).flags, LfsOpenFlags::Writing) ==> !has_flag(old(file).flags, LfsOpenFlags::Inline),
    ensures
        final(lfs).caches_ok(),
        final(file).id == old(file).id,
        final(file).m == old(file).m,
        !has_flag(old(file).flags, LfsOpenFlags::Writing) && (old(file).pos >= old(file).ctz.size || size == 0)
            ==> (r matches Ok(v) && v@.len() == 0 && final(file).pos == old(file).pos),
        !has_flag(old(file).flags, LfsOpenFlags::Writing) && !has_flag(old(file).flags, LfsOpenFlags::Inline)
            && old(lfs).bd.reads_ok() && list_holds(
            old(lfs).bd.blocks(),
            old(lfs).cfg.block_size,
            old(file).ctz.head,
            old(file).ctz.size,
        ) ==> r is Ok,
        !has_flag(old(file).flags, LfsOpenFlags::Writing) && has_flag(old(file).flags, LfsOpenFlags::Inline)
            && inline_cache_covers(old(file).cache, 0, old(file).ctz.size) ==> (r matches Ok(v) && forall|j: int|
            0 <= j < v@.len() ==> #[trigger] v@[j] == old(file).cache.buffer@[old(file).pos + j]),
        r matches Ok(v) ==> {
            let n = read_len(old(file).pos, open_size(*old(file)), size);
            &&& v@.len() == n
            &&& final(file).pos == old(file).pos + n
            &&& final(file).ctz.size == open_size(*old(file))
            &&& !has_flag(old(file).flags, LfsOpenFlags::Inline) ==> forall|j: int|
                0 <= j < n ==> #[trigger] v@[j] == open_byte(*old(lfs), *old(file), (old(file).pos + j) as u32)
            &&& has_flag(old(file).flags, LfsOpenFlags::Inline) ==> forall|j: int|
                0 <= j < n && old(file).pos + j < inline_data(*old(lfs), *old(file)).len() ==> #[trigger] v@[j]
                    == inline_data(*old(lfs), *old(file))[old(file).pos + j]
        },
        has_flag(old(file).flags, LfsOpenFlags::Writing) && old(lfs).bd.reads_ok() && old(lfs).bd.writes_ok() ==> r
            is Ok || (r == Err::<Vec<u8>, LfsError>(LfsError::NoSpc) && final(lfs).lookahead.ckpoint == 0),
        !has_flag(old(file).flags, LfsOpenFlags::Writing) && has_flag(old(file).flags, LfsOpenFlags::Inline)
            && old(lfs).bd.reads_ok() && getread_fits(
            *old(lfs),
            old(file).m,
            spec_mktag(0xfff, 0x1ff, 0),
            spec_mktag(0x201, old(file).id as u32, 0),
            old(file).pos,
            read_len(old(file).pos, old(file).ctz.size, size) as u32,
        ) ==> r is Ok || (r == Err::<Vec<u8>, LfsError>(LfsError::NoEnt) && lookup_absent(
            *old(lfs),
            old(file).m,
            spec_mktag(0xfff, 0x1ff, 0),
            spec_mktag(0x201, old(file).id as u32, 0),
        )),
{
    let ghost lfs0 = *lfs;
    let ghost file0 = *file;
    if file.flags & LfsOpenFlags::Writing.bits() != 0 {
        let fr = lfs_file_flush(lfs, in_use, file);
        if let Err(e) = fr {
            return Err(e);
        }
    }
    let ghost l1 = *lfs;
    let ghost f1 = *file;
    proof {
        if has_flag(file0.flags, LfsOpenFlags::Writing) && f1.ctz.size > 0 {
            let bs = l1.cfg.block_size;
            let last = crate::ctz::ctz_index_spec(bs, (f1.ctz.size - 1) as u32).0;
            let lb = list_blocks(l1.bd.blocks(), f1.ctz.head, last);
            assert(lb[last as int] == f1.ctz.head);
            assert(crate::ctz::ctz_chain_ok(l1.bd.blocks(), lb, last as int) && lb[last as int] == f1.ctz.head);
        }
    }
    let rd = lfs_file_flushedread(lfs, file, size);
    proof {
        if has_flag(file0.flags, LfsOpenFlags::Writing) {
            assert forall|p: u32| p < f1.ctz.size implies #[trigger] ctz_byte(
                l1.bd.blocks(),
                l1.cfg.block_size,
                f1.ctz.head,
                f1.ctz.size,
                p,
            ) == open_byte(lfs0, file0, p) by {
                assert(open_byte(l1, f1, p) == open_byte(lfs0, file0, p));
            }
        }
    }
    rd
}

/// The position a seek of `off` from `whence` asks for, as a word: from
/// the start, the position or the end of the file, each taken as a signed
/// word.
pub open spec fn seek_target(file: LfsFile, off: i32, whence: LfsWhenceFlags) -> u32 {
    match whence {
        LfsWhenceFlags::SeekSet => off as u32,
        LfsWhenceFlags::SeekCur => ((file.pos as i32) + off) as u32,
        LfsWhenceFlags::SeekEnd => ((open_size(file) as i32) + off) as u32,
    }
}

/// Moves the position of an open file to `off` from the start, the
/// position or the end, and returns it. A position past the largest file
/// size is refused. Moving within the part of a block the cache of a file
/// reading it holds only moves the offset; any other move first flushes
/// the file. The file reads as before up to its size.
#[verifier::rlimit(100)]
pub fn lfs_file_seek_<D: BlockDevice>(
    lfs: &mut Lfs<D>,
    in_use: &[LfsBlock],
    file: &mut LfsFile,
    off: LfsSoff,
    whence: LfsWhenceFlags,
) -> (r: Result<LfsSoff, LfsError>)
    requires
        old(lfs).caches_ok(),
        old(lfs).cfg.block_size >= 128,
        old(lfs).file_max <= 0x7fff_ffff,
        flush_ready(*old(lfs), *old(file), in_use@),
    ensures
        final(file).id == old(file).id,
        final(file).m == old(file).m,
        seek_target(*old(file), off, whence) > old(lfs).file_max ==> r == Err::<LfsSoff, LfsError>(LfsError::Inval)
            && *final(lfs) == *old(lfs) && *final(file) == *old(file),
        seek_target(*old(file), off, whence) <= old(lfs).file_max && (!has_flag(
            old(file).flags,
            LfsOpenFlags::Writing,
        ) || has_flag(old(file).flags, LfsOpenFlags::Inline)) ==> r is Ok,
        r matches Ok(n) ==> {
            &&& n == seek_target(*old(file), off, whence)
            &&& final(file).pos == seek_target(*old(file), off, whence)
            &&& forall|p: u32|
                p < open_size(*old(file)) ==> #[trigger] open_byte(*final(lfs), *final(file), p) == open_byte(
                    *old(lfs),
                    *old(file),
                    p,
                )
            &&& final(file).pos != old(file).pos ==> !has_flag(final(file).flags, LfsOpenFlags::Writing)
            &&& final(file).pos != old(file).pos ==> final(file).ctz.size == open_size(*old(file))
            &&& file_ok(*old(lfs), *old(file)) && !has_flag(old(file).flags, LfsOpenFlags::Inline) ==> file_ok(
                *final(lfs),
                *final(file),
            )
            &&& !has_flag(old(file).flags, LfsOpenFlags::Writing) ==> *final(lfs) == *old(lfs)
        },
        r is Err && seek_target(*old(file), off, whence) <= old(lfs).file_max ==> flush_failed(
            *final(lfs),
            *final(file),
            in_use@,
            *old(lfs),
            *old(file),
        ),
        seek_target(*old(file), off, whence) <= old(lfs).file_max && old(lfs).bd.reads_ok() && old(lfs).bd.writes_ok()
            ==> r is Ok || (r == Err::<LfsSoff, LfsError>(LfsError::NoSpc) && final(lfs).lookahead.ckpoint == 0),
{
    let ghost lfs0 = *lfs;
    let ghost file0 = *file;
    let npos: LfsOff = match whence {
        LfsWhenceFlags::SeekSet => off as LfsOff,
        LfsWhenceFlags::SeekCur => (file.pos as i32 as i64 + off as i64) as LfsOff,
        LfsWhenceFlags::SeekEnd => (lfs_file_size_(lfs, file) as i64 + off as i64) as LfsOff,
    };
    if npos > lfs.file_max {
        return Err(LfsError::Inval);
    }
    if file.pos == npos {
        return Ok(npos as LfsSoff);
    }
    let bs = lfs.cfg.block_size;
    if file.flags & LfsOpenFlags::Reading.bits() != 0 && file.off != bs {
        let mut ooff = file.pos;
        let oindex = lfs_ctz_index(&lfs.cfg, &mut ooff);
        let mut noff = npos;
        let nindex = lfs_ctz_index(&lfs.cfg, &mut noff);
        if oindex == nindex && noff >= file.cache.off && (noff as u64) < file.cache.off as u64 + file.cache.size as u64 {
            let ghost fo = *file;
            file.pos = npos;
            file.off = noff;
            proof {
                lemma_open_byte_flags(*lfs, fo, *file);
            }
            return Ok(npos as LfsSoff);
        }
    }
    let fr = lfs_file_flush(lfs, in_use, file);
    if let Err(e) = fr {
        return Err(e);
    }
    let ghost ff = *file;
    file.pos = npos;
    proof {
        lemma_open_byte_flags(*lfs, ff, *file);
    }
    Ok(npos as LfsSoff)
}

/// Moves the position of an open file back to its start.
pub fn lfs_file_rewind_<D: BlockDevice>(lfs: &mut Lfs<D>, in_use: &[LfsBlock], file: &mut LfsFile) -> (r: Result<
    (),
    LfsError,
>)
    requires
        old(lfs).caches_ok(),
        old(lfs).cfg.block_size >= 128,
        old(lfs).file_max <= 0x7fff_ffff,
        flush_ready(*old(lfs), *old(file), in_use@),
    ensures
        !has_flag(old(file).flags, LfsOpenFlags::Writing) || has_flag(old(file).flags, LfsOpenFlags::Inline) ==> r is Ok,
        r is Ok ==> {
            &&& final(file).pos == 0
            &&& forall|p: u32|
                p < open_size(*old(file)) ==> #[trigger] open_byte(*final(lfs), *final(file), p) == open_byte(
                    *old(lfs),
                    *old(file),
                    p,
                )
        },
        r is Err ==> flush_failed(*final(lfs), *final(file), in_use@, *old(lfs), *old(file)),
{
    let res = lfs_file_seek_(lfs, in_use, file, 0, LfsWhenceFlags::SeekSet);
    match res {
        Ok(_) => Ok(()),
        Err(e) => Err(e),
    }
}

/// A write of at least one byte to a file with a list of its own, once flushed, is on the
/// device: the committed list reaches past the written bytes and holds
/// them where they were written, after the bytes that were before them.
pub proof fn lemma_written_then_flushed<D: BlockDevice>(
    lfs0: Lfs<D>,
    file0: LfsFile,
    lfs1: Lfs<D>,
    file1: LfsFile,
    lfs2: Lfs<D>,
    file2: LfsFile,
    in_use: Seq<LfsBlock>,
    data: Seq<u8>,
)
    requires
        !has_flag(file0.flags, LfsOpenFlags::Inline),
        data.len() > 0,
        written(lfs1, file1, in_use, lfs0, file0, data),
        flushed(lfs2, file2, in_use, lfs1, file1),
    ensures
        write_start_pos(file0) + data.len() <= file2.ctz.size,
        forall|j: int|
            0 <= j < data.len() ==> #[trigger] ctz_byte(
                lfs2.bd.blocks(),
                lfs2.cfg.block_size,
                file2.ctz.head,
                file2.ctz.size,
                (write_start_pos(file0) + j) as u32,
            ) == data[j],
        forall|p: u32|
            p < write_start_pos(file0) ==> #[trigger] ctz_byte(
                lfs2.bd.blocks(),
                lfs2.cfg.block_size,
                file2.ctz.head,
                file2.ctz.size,
                p,
            ) == if !has_flag(file0.flags, LfsOpenFlags::Writing) && file0.ctz.size <= p {
                0u8
            } else {
                open_byte(lfs0, file0, p)
            },
{
    let start = write_start_pos(file0);
    assert forall|j: int| 0 <= j < data.len() implies #[trigger] ctz_byte(
        lfs2.bd.blocks(),
        lfs2.cfg.block_size,
        file2.ctz.head,
        file2.ctz.size,
        (start + j) as u32,
    ) == data[j] by {
        assert(open_byte(lfs2, file2, (start + j) as u32) == open_byte(lfs1, file1, (start + j) as u32));
    }
    assert forall|p: u32| p < start implies #[trigger] ctz_byte(
        lfs2.bd.blocks(),
        lfs2.cfg.block_size,
        file2.ctz.head,
        file2.ctz.size,
        p,
    ) == if !has_flag(file0.flags, LfsOpenFlags::Writing) && file0.ctz.size <= p {
        0u8
    } else {
        open_byte(lfs0, file0, p)
    } by {
        assert(open_byte(lfs2, file2, p) == open_byte(lfs1, file1, p));
    }
}

} // verus!
