//! Writing open files: appending bytes to a file's skip-list, block by
//! block, or to its inline data, through the file's own cache.
use vstd::prelude::*;
use crate::allocator::{lookahead_ok, marks_all};
use crate::bd::{
    BlockDevice, flushed, lemma_aligned_gap, lemma_overlay_index, lfs_bd_flush, lfs_bd_prog, lfs_cache_drop, overlay,
    pcache_ok, write_window,
};
use crate::ctz::{
    chain_link, ctz_chain_ok, ctz_index_spec, ctz_ptr, ctz_ptr_bytes, ctz_ptr_seq, ctz_walk, extend_off,
    lemma_ctz_extend_chain, lemma_ctz_find_chain, lemma_ctz_index_layout, lemma_ctz_index_next,
    lemma_ctz_index_run, lemma_ctz_ptr_seq_chain, lemma_exp2_ctz_le, lfs_ctz_extend, lfs_ctz_find,
};
use crate::allocator::lfs_alloc_ckpoint;
use crate::bd::{lfs_cache_zero, rcache_ok};
use crate::file::set_writing;
use crate::defines::{LfsBlock, LfsError, LfsOpenFlags, LfsSize, LFS_BLOCK_INLINE, LFS_BLOCK_NULL};
use crate::ctz::{index_chain, lemma_index_traverse_chain, lfs_index_traverse};
use crate::allocator::{la_off, lemma_marks_subset, lemma_marks_taken};
use crate::file::{
    ctz_byte, has_flag, inline_cache_covers, lfs_file_outline, lfs_file_relocate, moving_source, same_but_io, LfsFile,
};
use crate::fs::Lfs;
use crate::util::{exp2, lemma_exp2_monotone, lemma_exp2_pos, lfs_max, spec_ctz};

verus! {

/// The blocks of the skip-list whose block at index `last` is `head`,
/// found by searching down from it, by index.
pub open spec fn list_blocks(l: Seq<Seq<u8>>, head: u32, last: u32) -> Seq<u32> {
    Seq::new((last + 1) as nat, |k: int| ctz_walk(l, head, last, k as u32))
}

/// No block occurs twice among the first `n + 1` blocks of `c`.
pub open spec fn blocks_distinct(c: Seq<u32>, n: int) -> bool {
    forall|j: int, k: int| 0 <= j < k <= n ==> c[j] != c[k]
}

/// The skip-list whose block at index `last` is `head` is well formed and
/// meets no block twice.
pub open spec fn list_ok(l: Seq<Seq<u8>>, head: u32, last: u32) -> bool {
    &&& last < 0x400_0000
    &&& ctz_chain_ok(l, list_blocks(l, head, last), last as int)
    &&& blocks_distinct(list_blocks(l, head, last), last as int)
}

/// Byte `p` of the skip-list whose block at index `last` is `head`.
pub open spec fn list_byte(l: Seq<Seq<u8>>, block_size: u32, head: u32, last: u32, p: u32) -> u8 {
    let (i, o) = ctz_index_spec(block_size, p);
    l[ctz_walk(l, head, last, i) as int][o as int]
}

/// A well-formed chain is the list that searching down from its last block finds.
pub proof fn lemma_chain_is_list(l: Seq<Seq<u8>>, c: Seq<u32>, last: u32)
    requires
        ctz_chain_ok(l, c, last as int),
        c.len() == last + 1,
        last < 0x400_0000,
    ensures
        list_blocks(l, c[last as int], last) == c,
{
    assert forall|k: int| 0 <= k <= last implies #[trigger] list_blocks(l, c[last as int], last)[k] == c[k] by {
        lemma_ctz_find_chain(l, c, last, k as u32);
    }
    assert(list_blocks(l, c[last as int], last) =~= c);
}

/// A well-formed chain of distinct blocks is a well-formed list.
pub proof fn lemma_chain_list_ok(l: Seq<Seq<u8>>, c: Seq<u32>, last: u32)
    requires
        ctz_chain_ok(l, c, last as int),
        c.len() == last + 1,
        last < 0x400_0000,
        blocks_distinct(c, last as int),
    ensures
        list_ok(l, c[last as int], last),
        list_blocks(l, c[last as int], last) == c,
{
    lemma_chain_is_list(l, c, last);
}

/// A byte of a well-formed list lies in the block of its index.
pub proof fn lemma_list_byte(l: Seq<Seq<u8>>, block_size: u32, c: Seq<u32>, last: u32, p: u32)
    requires
        ctz_chain_ok(l, c, last as int),
        ctz_index_spec(block_size, p).0 <= last,
        last < 0x400_0000,
    ensures
        list_byte(l, block_size, c[last as int], last, p) == l[c[ctz_index_spec(block_size, p).0 as int] as int][ctz_index_spec(block_size, p).1 as int],
{
    lemma_ctz_find_chain(l, c, last, ctz_index_spec(block_size, p).0);
}

/// Replacing the last block of a well-formed chain by a block that holds
/// the same first `keep` bytes, which cover its pointers, while the other
/// blocks keep their contents, leaves a well-formed chain.
pub proof fn lemma_chain_move_head(
    l: Seq<Seq<u8>>,
    l2: Seq<Seq<u8>>,
    c: Seq<u32>,
    last: u32,
    nb: u32,
    keep: int,
)
    requires
        ctz_chain_ok(l, c, last as int),
        c.len() == last + 1,
        l2.len() == l.len(),
        forall|j: int| 0 <= j < last ==> #[trigger] l2[c[j] as int] == l[c[j] as int],
        forall|j: int| 0 <= j < last ==> #[trigger] c[j] != nb,
        nb < l2.len(),
        ctz_ptr_bytes(last as nat) <= keep,
        keep <= l[c[last as int] as int].len(),
        keep <= l2[nb as int].len(),
        forall|k: int| 0 <= k < keep ==> #[trigger] l2[nb as int][k] == l[c[last as int] as int][k],
    ensures
        ctz_chain_ok(l2, c.update(last as int, nb), last as int),
{
    let c2 = c.update(last as int, nb);
    assert forall|i: int| 0 <= i <= last implies #[trigger] c2[i] < l2.len() by {
        if i < last {
            assert(c2[i] == c[i]);
        }
    }
    assert forall|i: int, k: int|
        0 < i <= last && 0 <= k <= spec_ctz(i as u32) implies #[trigger] chain_link(l2, c2, i, k) by {
        assert(chain_link(l, c, i, k));
        lemma_exp2_pos(k as nat);
        lemma_exp2_ctz_le(i as u32);
        lemma_exp2_monotone(k as nat, spec_ctz(i as u32));
        assert(c2[i - exp2(k as nat)] == c[i - exp2(k as nat)]);
        if i < last {
            assert(c2[i] == c[i]);
        } else {
            assert(4 * k + 4 <= ctz_ptr_bytes(last as nat));
            assert(l2[nb as int].subrange(4 * k, 4 * k + 4) =~= l[c[last as int] as int].subrange(4 * k, 4 * k + 4));
            assert(ctz_ptr(l2, nb, k) == ctz_ptr(l, c[last as int], k));
        }
    }
}

/// A well-formed chain stays well formed on a device that agrees with
/// the first on all its blocks.
pub proof fn lemma_chain_same_blocks(l: Seq<Seq<u8>>, l2: Seq<Seq<u8>>, c: Seq<u32>, last: u32)
    requires
        ctz_chain_ok(l, c, last as int),
        l2.len() == l.len(),
        forall|j: int| 0 <= j <= last ==> #[trigger] l2[c[j] as int] == l[c[j] as int],
    ensures
        ctz_chain_ok(l2, c, last as int),
{
    assert forall|i: int, k: int|
        0 < i <= last && 0 <= k <= spec_ctz(i as u32) implies #[trigger] chain_link(l2, c, i, k) by {
        assert(chain_link(l, c, i, k));
        assert(l2[c[i] as int] == l[c[i] as int]);
    }
}

/// The index of the block a file being written is at: the block its
/// next byte goes to, or, once that block is full, the one its last byte
/// went to.
pub open spec fn write_last(block_size: u32, pos: u32, off: u32) -> u32 {
    if off == block_size {
        ctz_index_spec(block_size, (pos - 1) as u32).0
    } else {
        ctz_index_spec(block_size, pos).0
    }
}

/// The offset of a file being written matches its position: it is where
/// the next byte goes, or the end of the block its last byte filled.
pub open spec fn write_pos_ok(block_size: u32, pos: u32, off: u32) -> bool {
    if off == block_size {
        pos > 0 && ctz_index_spec(block_size, (pos - 1) as u32).1 + 1 == block_size
    } else {
        ctz_index_spec(block_size, pos).1 == off
    }
}

/// A file being written to a skip-list of its own: its block is the last
/// of a well-formed list on the device as the file's cache will leave it,
/// its offset matches its position, and its cache holds the pending bytes
/// of its block up to its offset.
pub open spec fn writing_ok<D: BlockDevice>(lfs: Lfs<D>, file: LfsFile) -> bool {
    let bs = lfs.cfg.block_size;
    &&& write_pos_ok(bs, file.pos, file.off)
    &&& file.off <= bs
    &&& file.block < lfs.block_count
    &&& list_ok(overlay(lfs.bd.blocks(), file.cache), file.block, write_last(bs, file.pos, file.off))
    &&& pcache_ok(lfs.cfg, lfs.bd.blocks(), file.cache)
    &&& write_window(lfs.cfg, file.cache, file.block, file.off)
    &&& file.off == bs ==> file.cache.block == LFS_BLOCK_NULL
}

/// The last byte before the position of a file being written lies in the
/// block it is at: its block holds at least one byte of it.
pub open spec fn write_settled(block_size: u32, pos: u32, off: u32) -> bool {
    pos > 0 ==> ctz_index_spec(block_size, (pos - 1) as u32).0 == write_last(block_size, pos, off)
}

/// Byte `p` of an open file as it stands: what its cache holds of an
/// inline file; while it is written to a list of its own, what that list
/// holds before its position; else what its committed list holds.
pub open spec fn open_byte<D: BlockDevice>(lfs: Lfs<D>, file: LfsFile, p: u32) -> u8 {
    let bs = lfs.cfg.block_size;
    if has_flag(file.flags, LfsOpenFlags::Inline) {
        file.cache.buffer@[p as int]
    } else if has_flag(file.flags, LfsOpenFlags::Writing) && p < file.pos {
        list_byte(overlay(lfs.bd.blocks(), file.cache), bs, file.block, write_last(bs, file.pos, file.off), p)
    } else {
        ctz_byte(lfs.bd.blocks(), bs, file.ctz.head, file.ctz.size, p)
    }
}

/// Every block of the list whose block at index `last` is `head` is in `used`.
pub open spec fn list_in(used: Seq<LfsBlock>, l: Seq<Seq<u8>>, head: u32, last: u32) -> bool {
    forall|j: int| 0 <= j <= last ==> used.contains(#[trigger] list_blocks(l, head, last)[j])
}

/// The committed skip-list of a file that is not inline is well formed and
/// all its blocks are in `used`.
pub open spec fn committed_ok<D: BlockDevice>(lfs: Lfs<D>, file: LfsFile, used: Seq<LfsBlock>) -> bool {
    let bs = lfs.cfg.block_size;
    let last = ctz_index_spec(bs, (file.ctz.size - 1) as u32).0;
    file.ctz.size > 0 ==> {
        &&& file.ctz.head < lfs.block_count
        &&& list_ok(lfs.bd.blocks(), file.ctz.head, last)
        &&& list_in(used, lfs.bd.blocks(), file.ctz.head, last)
    }
}

/// The first `m + 1` blocks of a well-formed chain are one.
pub proof fn lemma_chain_prefix(l: Seq<Seq<u8>>, c: Seq<u32>, n: u32, m: u32)
    requires
        ctz_chain_ok(l, c, n as int),
        m <= n,
    ensures
        ctz_chain_ok(l, c.take(m as int + 1), m as int),
        c.take(m as int + 1).len() == m + 1,
{
    let t = c.take(m as int + 1);
    assert forall|i: int, k: int| 0 < i <= m && 0 <= k <= spec_ctz(i as u32) implies #[trigger] chain_link(l, t, i, k) by {
        assert(chain_link(l, c, i, k));
        lemma_exp2_pos(k as nat);
        lemma_exp2_ctz_le(i as u32);
        lemma_exp2_monotone(k as nat, spec_ctz(i as u32));
    }
}

/// A block appended after a full last block, holding the pointers that
/// extending collects, continues a well-formed chain of distinct blocks
/// that the device keeps; the next position lies just past its pointers,
/// and every byte before it stays where it was.
pub proof fn lemma_appended_block(
    l0: Seq<Seq<u8>>,
    l1: Seq<Seq<u8>>,
    c: Seq<u32>,
    li: u32,
    nb: u32,
    bs: u32,
    pos: u32,
    want: spec_fn(u32) -> u8,
)
    requires
        bs >= 128,
        li < 0x400_0000,
        c.len() == li + 1,
        ctz_chain_ok(l0, c, li as int),
        blocks_distinct(c, li as int),
        l1.len() == l0.len(),
        forall|j: int| 0 <= j <= li ==> #[trigger] l1[c[j] as int] == l0[c[j] as int] && c[j] != nb,
        nb < l1.len(),
        l1[nb as int].len() == bs,
        pos > 0,
        ctz_index_spec(bs, (pos - 1) as u32) == (li, (bs - 1) as u32),
        forall|k: nat|
            k <= spec_ctz((li + 1) as u32) ==> #[trigger] crate::util::le32_of(l1[nb as int].subrange(
                4 * k as int,
                4 * k as int + 4,
            )) == ctz_ptr_seq(l0, c[li as int], k),
        forall|p: u32|
            p < pos ==> #[trigger] want(p) == l0[c[ctz_index_spec(bs, p).0 as int] as int][ctz_index_spec(
                bs,
                p,
            ).1 as int],
    ensures
        ctz_chain_ok(l1, c.push(nb), li + 1),
        blocks_distinct(c.push(nb), li + 1),
        ctz_index_spec(bs, pos) == ((li + 1) as u32, ctz_ptr_bytes((li + 1) as nat) as u32),
        forall|p: u32|
            p < pos ==> #[trigger] want(p) == l1[c.push(nb)[ctz_index_spec(bs, p).0 as int] as int][ctz_index_spec(
                bs,
                p,
            ).1 as int],
{
    lemma_ctz_index_next(bs, (pos - 1) as u32);
    assert(4 * (spec_ctz((li + 1) as u32) + 1) <= bs) by {
        crate::ctz::lemma_ctz_lt_32((li + 1) as u32);
    }
    lemma_ctz_extend_chain(l0, l1, c, li, nb);
    let c2 = c.push(nb);
    assert forall|p: u32| p < pos implies #[trigger] want(p) == l1[c2[ctz_index_spec(bs, p).0 as int] as int][ctz_index_spec(
        bs,
        p,
    ).1 as int] by {
        if p < pos - 1 {
            lemma_before_pos(bs, p, (pos - 1) as u32);
        }
        assert(c2[ctz_index_spec(bs, p).0 as int] == c[ctz_index_spec(bs, p).0 as int]);
    }
}

/// The chain `c0` with its last block replaced by the file's block is a
/// well-formed chain of distinct blocks on the device as the file's cache
/// will leave it, all in `used`, holding `want(p)` at every position `p`
/// before `pos`.
#[verifier::opaque]
pub open spec fn chain_holds<D: BlockDevice>(
    lfs: Lfs<D>,
    file: LfsFile,
    used: Seq<LfsBlock>,
    c0: Seq<u32>,
    li: u32,
    want: spec_fn(u32) -> u8,
    pos: u32,
) -> bool {
    let bs = lfs.cfg.block_size;
    let v = overlay(lfs.bd.blocks(), file.cache);
    let c = c0.update(li as int, file.block);
    &&& ctz_chain_ok(v, c, li as int)
    &&& blocks_distinct(c, li as int)
    &&& forall|j: int| 0 <= j <= li ==> used.contains(#[trigger] c[j])
    &&& forall|p: u32|
        p < pos ==> #[trigger] want(p) == v[c[ctz_index_spec(bs, p).0 as int] as int][ctz_index_spec(
            bs,
            p,
        ).1 as int]
}

/// After a program into a file's block failed on a bad block: drops the
/// read cache and moves the file's bytes before its offset to a new block
/// not in `used`, which is then added to it.
fn lfs_file_write_move<D: BlockDevice>(
    lfs: &mut Lfs<D>,
    used: &mut Vec<LfsBlock>,
    file: &mut LfsFile,
    Ghost(c0): Ghost<Seq<u32>>,
    Ghost(li): Ghost<u32>,
    Ghost(want): Ghost<spec_fn(u32) -> u8>,
    Ghost(vb): Ghost<Seq<Seq<u8>>>,
) -> (r: Result<(), LfsError>)
    requires
        crate::bd::cache_geometry_ok(old(lfs).cfg),
        crate::bd::device_ok(old(lfs).cfg, old(lfs).bd.blocks()),
        old(lfs).block_count == old(lfs).bd.blocks().len(),
        old(lfs).rcache.buffer@.len() == old(lfs).cfg.cache_size,
        pcache_ok(old(lfs).cfg, old(lfs).bd.blocks(), old(lfs).pcache),
        old(lfs).cfg.block_size >= 128,
        old(lfs).pcache.block == LFS_BLOCK_NULL,
        lookahead_ok(old(lfs).lookahead, old(lfs).cfg.lookahead_size, old(lfs).block_count),
        0 < old(lfs).cfg.lookahead_size <= 0x1000_0000,
        forall|i: int| 0 <= i < old(used)@.len() ==> #[trigger] old(used)@[i] < old(lfs).block_count,
        marks_all(old(lfs).lookahead, old(lfs).block_count, old(used)@),
        !has_flag(old(file).flags, LfsOpenFlags::Inline),
        has_flag(old(file).flags, LfsOpenFlags::Writing),
        old(file).id < 0x3ff,
        old(file).block < old(lfs).block_count,
        pcache_ok(old(lfs).cfg, old(lfs).bd.blocks(), old(file).cache),
        old(file).cache.block == old(file).block,
        li < 0x400_0000,
        c0.len() == li + 1,
        ctz_index_spec(old(lfs).cfg.block_size, old(file).pos) == (li, old(file).off),
        ctz_ptr_bytes(li as nat) <= old(file).off < old(lfs).cfg.block_size,
        vb.len() == old(lfs).bd.blocks().len(),
        vb[old(file).block as int].len() == old(lfs).cfg.block_size,
        forall|b: int| 0 <= b < vb.len() && b != old(file).block ==> #[trigger] vb[b] == old(lfs).bd.blocks()[b],
        forall|k: int|
            0 <= k < old(file).off ==> #[trigger] overlay(old(lfs).bd.blocks(), old(file).cache)[old(file).block as int][k]
                == vb[old(file).block as int][k],
        ({
            let cb = c0.update(li as int, old(file).block);
            let bs = old(lfs).cfg.block_size;
            &&& ctz_chain_ok(vb, cb, li as int)
            &&& blocks_distinct(cb, li as int)
            &&& forall|j: int| 0 <= j <= li ==> old(used)@.contains(#[trigger] cb[j])
            &&& forall|p: u32|
                p < old(file).pos ==> #[trigger] want(p) == vb[cb[ctz_index_spec(bs, p).0 as int] as int][ctz_index_spec(
                    bs,
                    p,
                ).1 as int]
        }),
    ensures
        final(lfs).caches_ok(),
        final(lfs).pcache.block == LFS_BLOCK_NULL,
        same_but_io(*final(lfs), *old(lfs)),
        lookahead_ok(final(lfs).lookahead, final(lfs).cfg.lookahead_size, final(lfs).block_count),
        final(lfs).bd.blocks().len() == old(lfs).bd.blocks().len(),
        final(used)@.len() >= old(used)@.len(),
        forall|i: int| 0 <= i < old(used)@.len() ==> #[trigger] final(used)@[i] == old(used)@[i],
        forall|i: int| 0 <= i < final(used)@.len() ==> #[trigger] final(used)@[i] < old(lfs).block_count,
        marks_all(final(lfs).lookahead, final(lfs).block_count, final(used)@),
        forall|j: int|
            0 <= j < old(used)@.len() ==> #[trigger] final(lfs).bd.blocks()[old(used)@[j] as int] == old(
                lfs,
            ).bd.blocks()[old(used)@[j] as int],
        final(file).id == old(file).id,
        final(file).type_ == old(file).type_,
        final(file).m == old(file).m,
        final(file).ctz == old(file).ctz,
        final(file).pos == old(file).pos,
        final(file).off == old(file).off,
        final(file).flags == (old(file).flags | LfsOpenFlags::Writing.spec_bits()) || final(file).flags == old(
            file,
        ).flags,
        has_flag(final(file).flags, LfsOpenFlags::Writing),
        !has_flag(final(file).flags, LfsOpenFlags::Inline),
        r is Err ==> final(file).block == old(file).block,
        r is Ok ==> {
            &&& final(file).block < old(lfs).block_count
            &&& !old(used)@.contains(final(file).block)
            &&& pcache_ok(final(lfs).cfg, final(lfs).bd.blocks(), final(file).cache)
            &&& write_window(final(lfs).cfg, final(file).cache, final(file).block, final(file).off)
            &&& final(lfs).lookahead.ckpoint < old(lfs).lookahead.ckpoint
            &&& chain_holds(*final(lfs), *final(file), final(used)@, c0, li, want, old(file).pos)
        },
        final(lfs).bd.reads_ok() == old(lfs).bd.reads_ok(),
        final(lfs).bd.writes_ok() == old(lfs).bd.writes_ok(),
{
    lfs_cache_drop(&mut lfs.rcache);
    let ghost lf = *lfs;
    let ghost ff = *file;
    let ghost cb = c0.update(li as int, ff.block);
    let ghost bs = lfs.cfg.block_size;
    proof {
        assert(used@.contains(cb[li as int]));
    }
    let rr = lfs_file_relocate(lfs, used.as_slice(), file);
    if let Err(e) = rr {
        return Err(e);
    }
    proof {
        let nb = file.block;
        let vn = overlay(lfs.bd.blocks(), file.cache);
        assert forall|j: int| 0 <= j < li implies #[trigger] vn[cb[j] as int] == vb[cb[j] as int] && cb[j] != nb by {
            assert(used@.contains(cb[j]));
            let w = choose|w: int| 0 <= w < used@.len() && used@[w] == cb[j];
            assert(lfs.bd.blocks()[used@[w] as int] == lf.bd.blocks()[used@[w] as int]);
            assert(cb[j] != cb[li as int]);
        }
        lemma_overlay_index(lfs.cfg, lfs.bd.blocks(), file.cache, nb as int, 0);
        lemma_moved_head(vb, vn, cb, li, nb, bs, ff.pos, ff.off, want);
        assert(cb.update(li as int, nb) =~= c0.update(li as int, nb));
        lemma_or_twice(ff.flags, LfsOpenFlags::Writing.spec_bits());
        crate::allocator::lemma_marks_taken(lfs.lookahead, lfs.block_count, used@, nb);
    }
    let ghost up = used@;
    used.push(file.block);
    proof {
        let cn = c0.update(li as int, file.block);
        assert forall|j: int| 0 <= j <= li implies used@.contains(#[trigger] cn[j]) by {
            if j < li {
                assert(cn[j] == cb[j]);
                assert(up.contains(cb[j]));
                let w = choose|w: int| 0 <= w < up.len() && up[w] == cn[j];
                assert(used@[w] == cn[j]);
            } else {
                assert(used@[used@.len() - 1] == cn[j]);
            }
        }
        reveal(chain_holds);
    }
    Ok(())
}

/// Programs `chunk` at the offset of a file being written, which it fits
/// in the file's block, through the file's cache, checking what reaches
/// the device. When the device finds the block bad, the file moves to a
/// new block (one not in `used`, which is then added to it) and the
/// program is tried again there. The file's position and offset then move
/// past the chunk. A failed program drops the read cache.
#[verifier::rlimit(100)]
fn lfs_file_write_chunk<D: BlockDevice>(
    lfs: &mut Lfs<D>,
    used: &mut Vec<LfsBlock>,
    file: &mut LfsFile,
    chunk: &[u8],
) -> (r: Result<(), LfsError>)
    requires
        old(lfs).caches_ok(),
        old(lfs).cfg.block_size >= 128,
        old(lfs).pcache.block == LFS_BLOCK_NULL,
        lookahead_ok(old(lfs).lookahead, old(lfs).cfg.lookahead_size, old(lfs).block_count),
        0 < old(lfs).cfg.lookahead_size <= 0x1000_0000,
        forall|i: int| 0 <= i < old(used)@.len() ==> #[trigger] old(used)@[i] < old(lfs).block_count,
        marks_all(old(lfs).lookahead, old(lfs).block_count, old(used)@),
        !has_flag(old(file).flags, LfsOpenFlags::Inline),
        has_flag(old(file).flags, LfsOpenFlags::Writing),
        old(file).id < 0x3ff,
        writing_ok(*old(lfs), *old(file)),
        old(file).off < old(lfs).cfg.block_size,
        list_in(
            old(used)@,
            overlay(old(lfs).bd.blocks(), old(file).cache),
            old(file).block,
            write_last(old(lfs).cfg.block_size, old(file).pos, old(file).off),
        ),
        chunk@.len() > 0,
        old(file).off + chunk@.len() <= old(lfs).cfg.block_size,
        old(file).pos + chunk@.len() <= u32::MAX,
    ensures
        final(lfs).caches_ok(),
        final(lfs).pcache.block == LFS_BLOCK_NULL,
        same_but_io(*final(lfs), *old(lfs)),
        lookahead_ok(final(lfs).lookahead, final(lfs).cfg.lookahead_size, final(lfs).block_count),
        final(lfs).bd.blocks().len() == old(lfs).bd.blocks().len(),
        final(used)@.len() >= old(used)@.len(),
        forall|i: int| 0 <= i < old(used)@.len() ==> #[trigger] final(used)@[i] == old(used)@[i],
        forall|i: int| 0 <= i < final(used)@.len() ==> #[trigger] final(used)@[i] < old(lfs).block_count,
        marks_all(final(lfs).lookahead, final(lfs).block_count, final(used)@),
        forall|j: int|
            0 <= j < old(used)@.len() && old(used)@[j] != old(file).block ==> #[trigger] final(lfs).bd.blocks()[old(
                used,
            )@[j] as int] == old(lfs).bd.blocks()[old(used)@[j] as int],
        final(file).id == old(file).id,
        final(file).type_ == old(file).type_,
        final(file).m == old(file).m,
        final(file).ctz == old(file).ctz,
        has_flag(final(file).flags, LfsOpenFlags::Writing),
        !has_flag(final(file).flags, LfsOpenFlags::Inline),
        final(file).flags == old(file).flags || final(file).flags == (old(file).flags
            | LfsOpenFlags::Writing.spec_bits()),
        r is Ok ==> {
            let bs = old(lfs).cfg.block_size;
            let li = write_last(bs, old(file).pos, old(file).off);
            &&& final(file).pos == old(file).pos + chunk@.len()
            &&& final(file).off == old(file).off + chunk@.len()
            &&& writing_ok(*final(lfs), *final(file))
            &&& write_last(bs, final(file).pos, final(file).off) == li
            &&& write_settled(bs, final(file).pos, final(file).off)
            &&& list_in(final(used)@, overlay(final(lfs).bd.blocks(), final(file).cache), final(file).block, li)
            &&& final(file).block == old(file).block || !old(used)@.contains(final(file).block)
            &&& forall|p: u32| p < old(file).pos ==> #[trigger] open_byte(*final(lfs), *final(file), p)
                == open_byte(*old(lfs), *old(file), p)
            &&& forall|j: int| 0 <= j < chunk@.len() ==> #[trigger] open_byte(*final(lfs), *final(file), (old(
                file).pos + j) as u32) == chunk@[j]
        },
        final(lfs).bd.reads_ok() == old(lfs).bd.reads_ok(),
        final(lfs).bd.writes_ok() == old(lfs).bd.writes_ok(),
        old(lfs).bd.reads_ok() && old(lfs).bd.writes_ok() ==> r is Ok,
{
    let ghost lfs0 = *lfs;
    let ghost file0 = *file;
    let ghost used0 = used@;
    let ghost b0 = lfs.bd.blocks();
    let ghost bs = lfs.cfg.block_size;
    let ghost li = write_last(bs, file.pos, file.off);
    let ghost v0 = overlay(b0, file.cache);
    let ghost c0 = list_blocks(v0, file.block, li);
    let ghost want = |p: u32| open_byte(lfs0, file0, p);
    let len = chunk.len() as u32;
    proof {
        lemma_ctz_index_next(bs, file.pos);
        assert(c0[li as int] == file.block);
        assert(c0.update(li as int, file0.block) =~= c0);
        assert forall|p: u32| p < file0.pos implies #[trigger] want(p) == v0[c0[ctz_index_spec(
            bs,
            p,
        ).0 as int] as int][ctz_index_spec(bs, p).1 as int] by {
            lemma_before_pos(bs, p, file0.pos);
            lemma_list_byte(v0, bs, c0, li, p);
        }
        reveal(chain_holds);
    }
    loop
        invariant
            lfs.caches_ok(),
            lfs.cfg.block_size >= 128,
            lfs.pcache.block == LFS_BLOCK_NULL,
            lfs.bd.reads_ok() == old(lfs).bd.reads_ok(),
            lfs.bd.writes_ok() == old(lfs).bd.writes_ok(),
            same_but_io(*lfs, lfs0),
            lfs0 == *old(lfs),
            file0 == *old(file),
            used0 == old(used)@,
            b0 == lfs0.bd.blocks(),
            bs == lfs.cfg.block_size,
            want == (|p: u32| open_byte(lfs0, file0, p)),
            lookahead_ok(lfs.lookahead, lfs.cfg.lookahead_size, lfs.block_count),
            0 < lfs.cfg.lookahead_size <= 0x1000_0000,
            lfs.bd.blocks().len() == b0.len(),
            used@.len() >= used0.len(),
            forall|i: int| 0 <= i < used0.len() ==> #[trigger] used@[i] == used0[i],
            forall|i: int| 0 <= i < used@.len() ==> #[trigger] used@[i] < lfs.block_count,
            marks_all(lfs.lookahead, lfs.block_count, used@),
            forall|j: int|
                0 <= j < used0.len() && used0[j] != file0.block ==> #[trigger] lfs.bd.blocks()[used0[j] as int]
                    == b0[used0[j] as int],
            file.id == file0.id,
            file.type_ == file0.type_,
            file.m == file0.m,
            file.ctz == file0.ctz,
            file.pos == file0.pos,
            file.off == file0.off,
            has_flag(file.flags, LfsOpenFlags::Writing),
            !has_flag(file.flags, LfsOpenFlags::Inline),
            file.flags == file0.flags || file.flags == (file0.flags | LfsOpenFlags::Writing.spec_bits()),
            file.block == file0.block || !used0.contains(file.block),
            file.id < 0x3ff,
            file.block < lfs.block_count,
            len == chunk@.len(),
            len > 0,
            file.off + len <= bs,
            file.pos + len <= u32::MAX,
            li == write_last(bs, file0.pos, file0.off),
            li < 0x400_0000,
            c0.len() == li + 1,
            c0[li as int] == file0.block,
            ctz_index_spec(bs, file.pos) == (li, file.off),
            ctz_ptr_bytes(li as nat) <= file.off,
            pcache_ok(lfs.cfg, lfs.bd.blocks(), file.cache),
            write_window(lfs.cfg, file.cache, file.block, file.off),
            chain_holds(*lfs, *file, used@, c0, li, want, file0.pos),
        decreases lfs.lookahead.ckpoint,
    {
        let ghost lb = *lfs;
        let ghost fb = *file;
        let ghost vb = overlay(lb.bd.blocks(), fb.cache);
        let ghost cb = c0.update(li as int, fb.block);
        let bc = lfs.block_count;
        proof {
            crate::bd::lemma_window_contiguous(lfs.cfg, file.cache, file.block, file.off);
            crate::bd::lemma_contiguous_gap(lfs.cfg, file.cache, file.block, file.off);
            assert(lfs.bd.blocks()[file.block as int].len() == bs);
            assert(cb[li as int] == fb.block);
            lemma_overlay_index(lb.cfg, lb.bd.blocks(), fb.cache, fb.block as int, 0);
        }
        let res = lfs_bd_prog(&lfs.cfg, &mut lfs.bd, bc, &mut file.cache, &mut lfs.rcache, true, file.block, file.off, chunk);
        match res {
            Ok(()) => {
                proof {
                    reveal(chain_holds);
                    crate::bd::lemma_prog_expect_splice(vb[fb.block as int], fb.off as int, chunk@);
                    let vn = overlay(lfs.bd.blocks(), file.cache);
                    assert(vn == vb.update(fb.block as int, crate::bd::splice(vb[fb.block as int], fb.off as int, chunk@)));
                    lemma_prog_in_head(vb, vn, cb, li, bs, fb.pos, fb.off, chunk@, want);
                    if fb.off + len == bs && file.cache.block == fb.block {
                        lemma_aligned_gap(bs as int, file.cache.off as int, lb.cfg.cache_size as int);
                    }
                    assert forall|j: int| 0 <= j < used0.len() && used0[j] != file0.block implies #[trigger] lfs.bd.blocks()[used0[j] as int]
                        == b0[used0[j] as int] by {
                        assert(used0.contains(used0[j]));
                        assert(used@[j] == used0[j]);
                        assert(used0[j] != fb.block);
                        assert(lfs.bd.blocks()[used0[j] as int] == lb.bd.blocks()[used0[j] as int]);
                    }
                }
                file.pos = file.pos + len;
                file.off = file.off + len;
                proof {
                    assert(write_last(bs, file.pos, file.off) == li);
                    assert forall|p: u32| p < fb.pos implies #[trigger] open_byte(*lfs, *file, p) == open_byte(lfs0, file0, p) by {
                        assert(list_byte(overlay(lfs.bd.blocks(), file.cache), bs, fb.block, li, p) == want(p));
                    }
                    assert forall|j: int| 0 <= j < len implies #[trigger] open_byte(*lfs, *file, (fb.pos + j) as u32) == chunk@[j] by {
                        assert(list_byte(overlay(lfs.bd.blocks(), file.cache), bs, fb.block, li, (fb.pos + j) as u32) == chunk@[j]);
                    }
                }
                return Ok(());
            },
            Err(LfsError::Corrupt) => {
                proof {
                    reveal(chain_holds);
                    assert forall|j: int| 0 <= j < used0.len() && used0[j] != file0.block implies #[trigger] lfs.bd.blocks()[used0[j] as int]
                        == b0[used0[j] as int] by {
                        assert(used0.contains(used0[j]));
                        assert(used@[j] == used0[j]);
                        assert(used0[j] != fb.block);
                        assert(lfs.bd.blocks()[used0[j] as int] == lb.bd.blocks()[used0[j] as int]);
                    }
                }
                let ghost lf = *lfs;
                let ghost uf = used@;
                let mv = lfs_file_write_move(lfs, used, file, Ghost(c0), Ghost(li), Ghost(want), Ghost(vb));
                proof {
                    lemma_or_twice(file0.flags, LfsOpenFlags::Writing.spec_bits());
                    assert forall|j: int| 0 <= j < used0.len() && used0[j] != file0.block implies #[trigger] lfs.bd.blocks()[used0[j] as int]
                        == b0[used0[j] as int] by {
                        assert(uf[j] == used0[j]);
                        assert(lfs.bd.blocks()[uf[j] as int] == lf.bd.blocks()[uf[j] as int]);
                    }
                    if mv is Ok {
                        assert(!used0.contains(file.block)) by {
                            if used0.contains(file.block) {
                                let w = choose|w: int| 0 <= w < used0.len() && used0[w] == file.block;
                                assert(uf[w] == file.block);
                            }
                        }
                    }
                }
                if let Err(e) = mv {
                    return Err(e);
                }
            },
            Err(e) => {
                lfs_cache_drop(&mut lfs.rcache);
                proof {
                    assert forall|j: int| 0 <= j < used0.len() && used0[j] != file0.block implies #[trigger] lfs.bd.blocks()[used0[j] as int]
                        == b0[used0[j] as int] by {
                        assert(used0.contains(used0[j]));
                        assert(used@[j] == used0[j]);
                        assert(used0[j] != fb.block);
                        assert(lfs.bd.blocks()[used0[j] as int] == lb.bd.blocks()[used0[j] as int]);
                    }
                }
                return Err(e);
            },
        }
    }
}

/// Gives a file that is not inline a fresh block for its next byte: when
/// it was not being written, the block of its last byte before its
/// position is found in its committed skip-list and its cache emptied;
/// then a block (one not in `used`, which is then added to it) is
/// allocated and the list extended into it. The file is then writing, with
/// every byte before its position where it was.
#[verifier::rlimit(100)]
#[verifier::spinoff_prover]
fn lfs_file_write_block<D: BlockDevice>(
    lfs: &mut Lfs<D>,
    used: &mut Vec<LfsBlock>,
    file: &mut LfsFile,
) -> (r: Result<(), LfsError>)
    requires
        old(lfs).caches_ok(),
        old(lfs).cfg.block_size >= 128,
        old(lfs).pcache.block == LFS_BLOCK_NULL,
        lookahead_ok(old(lfs).lookahead, old(lfs).cfg.lookahead_size, old(lfs).block_count),
        0 < old(lfs).cfg.lookahead_size <= 0x1000_0000,
        forall|i: int| 0 <= i < old(used)@.len() ==> #[trigger] old(used)@[i] < old(lfs).block_count,
        marks_all(old(lfs).lookahead, old(lfs).block_count, old(used)@),
        !has_flag(old(file).flags, LfsOpenFlags::Inline),
        old(file).cache.size <= old(lfs).cfg.cache_size,
        old(file).pos < u32::MAX,
        has_flag(old(file).flags, LfsOpenFlags::Writing) ==> {
            &&& writing_ok(*old(lfs), *old(file))
            &&& old(file).off == old(lfs).cfg.block_size
            &&& list_in(
                old(used)@,
                overlay(old(lfs).bd.blocks(), old(file).cache),
                old(file).block,
                write_last(old(lfs).cfg.block_size, old(file).pos, old(file).off),
            )
        },
        !has_flag(old(file).flags, LfsOpenFlags::Writing) ==> {
            &&& rcache_ok(old(lfs).cfg, old(lfs).bd.blocks(), old(file).cache)
            &&& old(file).pos <= old(file).ctz.size
            &&& committed_ok(*old(lfs), *old(file), old(used)@)
        },
    ensures
        final(lfs).caches_ok(),
        final(lfs).pcache.block == LFS_BLOCK_NULL,
        same_but_io(*final(lfs), *old(lfs)),
        lookahead_ok(final(lfs).lookahead, final(lfs).cfg.lookahead_size, final(lfs).block_count),
        final(lfs).bd.blocks().len() == old(lfs).bd.blocks().len(),
        final(used)@.len() >= old(used)@.len(),
        forall|i: int| 0 <= i < old(used)@.len() ==> #[trigger] final(used)@[i] == old(used)@[i],
        forall|i: int| 0 <= i < final(used)@.len() ==> #[trigger] final(used)@[i] < old(lfs).block_count,
        marks_all(final(lfs).lookahead, final(lfs).block_count, final(used)@),
        forall|j: int|
            0 <= j < old(used)@.len() ==> #[trigger] final(lfs).bd.blocks()[old(used)@[j] as int] == old(
                lfs,
            ).bd.blocks()[old(used)@[j] as int],
        final(file).id == old(file).id,
        final(file).type_ == old(file).type_,
        final(file).m == old(file).m,
        final(file).ctz == old(file).ctz,
        final(file).pos == old(file).pos,
        r is Err ==> final(file).flags == old(file).flags,
        r is Ok ==> {
            let bs = old(lfs).cfg.block_size;
            &&& final(file).flags == old(file).flags | LfsOpenFlags::Writing.spec_bits()
            &&& has_flag(final(file).flags, LfsOpenFlags::Writing)
            &&& !has_flag(final(file).flags, LfsOpenFlags::Inline)
            &&& writing_ok(*final(lfs), *final(file))
            &&& final(file).off < bs
            &&& !old(used)@.contains(final(file).block)
            &&& list_in(
                final(used)@,
                overlay(final(lfs).bd.blocks(), final(file).cache),
                final(file).block,
                write_last(bs, final(file).pos, final(file).off),
            )
            &&& forall|p: u32| p < old(file).pos ==> #[trigger] open_byte(*final(lfs), *final(file), p)
                == open_byte(*old(lfs), *old(file), p)
        },
        final(lfs).bd.reads_ok() == old(lfs).bd.reads_ok(),
        final(lfs).bd.writes_ok() == old(lfs).bd.writes_ok(),
        old(lfs).bd.reads_ok() && old(lfs).bd.writes_ok() && r is Err ==> r == Err::<(), LfsError>(LfsError::NoSpc)
            && final(lfs).lookahead.ckpoint == 0,
{
    let ghost lfs0 = *lfs;
    let ghost file0 = *file;
    let ghost used0 = used@;
    let ghost b0 = lfs.bd.blocks();
    let ghost bs = lfs.cfg.block_size;
    let ghost want = |p: u32| open_byte(lfs0, file0, p);
    let bc = lfs.block_count;
    // The chain the new block continues and its last index: the list being
    // written, or the prefix of the committed list up to the block of the
    // last byte before the position.
    let ghost mut c: Seq<u32> = Seq::empty();
    let ghost mut li: u32 = 0;
    proof {
        if has_flag(file0.flags, LfsOpenFlags::Writing) {
            li = write_last(bs, file0.pos, file0.off);
            c = list_blocks(b0, file0.block, li);
            lemma_base_writing(lfs0, file0, used0, want);
        }
    }
    if file.flags & LfsOpenFlags::Writing.bits() == 0 {
        if file.pos > 0 {
            let mut blk = file.block;
            let mut o: u32 = 0;
            proof {
                let last = ctz_index_spec(bs, (file0.ctz.size - 1) as u32).0;
                let lb = list_blocks(b0, file0.ctz.head, last);
                assert(lb[last as int] == file0.ctz.head);
                assert(crate::bd::logical(b0, None) == b0);
                assert(ctz_chain_ok(crate::bd::logical(b0, None), lb, last as int) && lb[last as int] == file0.ctz.head);
            }
            lfs_ctz_find(&lfs.cfg, &lfs.bd, bc, None, &mut file.cache, file.ctz.head, file.ctz.size, file.pos - 1, &mut blk, &mut o)?;
            file.block = blk;
            proof {
                li = ctz_index_spec(bs, (file0.pos - 1) as u32).0;
                let last = ctz_index_spec(bs, (file0.ctz.size - 1) as u32).0;
                c = list_blocks(b0, file0.ctz.head, last).take(li as int + 1);
                lemma_base_found(b0, file0.ctz.head, file0.ctz.size, file0.pos, bs, used0, want);
            }
        }
        lfs_cache_zero(&mut file.cache);
        // An emptied cache has nothing pending.
        file.cache.size = 0;
    }
    lfs_alloc_ckpoint(lfs);
    let mut nb: u32 = 0;
    let mut noff: u32 = 0;
    let ghost head = file.block;
    proof {
        if file0.pos > 0 {
            lemma_base_reads(b0, c, li, used0, bs, file0.pos, want);
        }
    }
    lfs_ctz_extend(lfs, used.as_slice(), &mut file.cache, file.block, file.pos, &mut nb, &mut noff)?;
    let ghost v1 = overlay(lfs.bd.blocks(), file.cache);
    proof {
        lemma_overlay_index(lfs.cfg, lfs.bd.blocks(), file.cache, nb as int, 0);
        assert forall|j: int| 0 <= j < used0.len() implies #[trigger] lfs.bd.blocks()[used0[j] as int] == b0[used0[j] as int] by {
            assert(used0.contains(used0[j]));
            assert(v1[used0[j] as int] == b0[used0[j] as int]);
        }
    }
    file.block = nb;
    file.off = noff;
    used.push(nb);
    file.flags = set_writing(file.flags);
    proof {
        crate::allocator::lemma_marks_taken(lfs.lookahead, lfs.block_count, used0, nb);
        lemma_after_extend(b0, v1, c, li, nb, noff, bs, file0.pos, want, used0, used@);
        let ln = write_last(bs, file.pos, file.off);
        assert forall|p: u32| p < file0.pos implies #[trigger] open_byte(*lfs, *file, p) == want(p) by {
            assert(list_byte(v1, bs, nb, ln, p) == want(p));
        }
    }
    Ok(())
}

/// The chain `c` of `li + 1` distinct blocks is well formed on `l`, all its
/// blocks are in `used`, and it holds `want(p)` at every position `p`
/// before `pos`.
#[verifier::opaque]
pub open spec fn chain_base(
    l: Seq<Seq<u8>>,
    c: Seq<u32>,
    li: u32,
    used: Seq<LfsBlock>,
    bs: u32,
    pos: u32,
    want: spec_fn(u32) -> u8,
) -> bool {
    &&& li < 0x400_0000
    &&& c.len() == li + 1
    &&& ctz_chain_ok(l, c, li as int)
    &&& blocks_distinct(c, li as int)
    &&& forall|j: int| 0 <= j <= li ==> used.contains(#[trigger] c[j])
    &&& forall|p: u32|
        p < pos ==> #[trigger] want(p) == l[c[ctz_index_spec(bs, p).0 as int] as int][ctz_index_spec(bs, p).1 as int]
}

/// The list a file is writing, when its block is full, is a chain base for
/// its bytes so far.
pub proof fn lemma_base_writing<D: BlockDevice>(lfs: Lfs<D>, file: LfsFile, used: Seq<LfsBlock>, want: spec_fn(u32) -> u8)
    requires
        lfs.caches_ok(),
        lfs.cfg.block_size >= 128,
        writing_ok(lfs, file),
        file.off == lfs.cfg.block_size,
        !has_flag(file.flags, LfsOpenFlags::Inline),
        has_flag(file.flags, LfsOpenFlags::Writing),
        list_in(used, overlay(lfs.bd.blocks(), file.cache), file.block, write_last(lfs.cfg.block_size, file.pos, file.off)),
        forall|p: u32| #[trigger] want(p) == open_byte(lfs, file, p),
    ensures
        ({
            let bs = lfs.cfg.block_size;
            let li = write_last(bs, file.pos, file.off);
            let c = list_blocks(lfs.bd.blocks(), file.block, li);
            &&& overlay(lfs.bd.blocks(), file.cache) == lfs.bd.blocks()
            &&& li == ctz_index_spec(bs, (file.pos - 1) as u32).0
            &&& c[li as int] == file.block
            &&& chain_base(lfs.bd.blocks(), c, li, used, bs, file.pos, want)
        }),
{
    reveal(chain_base);
    let bs = lfs.cfg.block_size;
    let l = lfs.bd.blocks();
    assert(overlay(l, file.cache) == l);
    let li = write_last(bs, file.pos, file.off);
    let c = list_blocks(l, file.block, li);
    assert forall|p: u32| p < file.pos implies #[trigger] want(p) == l[c[ctz_index_spec(bs, p).0 as int] as int][ctz_index_spec(
        bs,
        p,
    ).1 as int] by {
        if p < file.pos - 1 {
            lemma_before_pos(bs, p, (file.pos - 1) as u32);
        }
        lemma_list_byte(l, bs, c, li, p);
    }
}

/// The committed list's blocks up to the block of the byte before `pos`
/// are a chain base for the file's bytes before `pos`, ending in the block
/// the search finds.
pub proof fn lemma_base_found(
    l: Seq<Seq<u8>>,
    head: u32,
    size: u32,
    pos: u32,
    bs: u32,
    used: Seq<LfsBlock>,
    want: spec_fn(u32) -> u8,
)
    requires
        bs >= 128,
        0 < pos <= size,
        list_ok(l, head, ctz_index_spec(bs, (size - 1) as u32).0),
        list_in(used, l, head, ctz_index_spec(bs, (size - 1) as u32).0),
        forall|p: u32| p < size ==> #[trigger] want(p) == ctz_byte(l, bs, head, size, p),
    ensures
        ({
            let last = ctz_index_spec(bs, (size - 1) as u32).0;
            let li = ctz_index_spec(bs, (pos - 1) as u32).0;
            let c = list_blocks(l, head, last).take(li as int + 1);
            &&& li <= last
            &&& c[li as int] == ctz_walk(l, head, last, li)
            &&& chain_base(l, c, li, used, bs, pos, want)
        }),
{
    reveal(chain_base);
    let last = ctz_index_spec(bs, (size - 1) as u32).0;
    let cc = list_blocks(l, head, last);
    let li = ctz_index_spec(bs, (pos - 1) as u32).0;
    if pos < size {
        lemma_before_pos(bs, (pos - 1) as u32, (size - 1) as u32);
    }
    lemma_chain_prefix(l, cc, last, li);
    let c = cc.take(li as int + 1);
    assert forall|j: int, k: int| 0 <= j < k <= li implies c[j] != c[k] by {
        assert(cc[j] != cc[k]);
    }
    assert forall|j: int| 0 <= j <= li implies used.contains(#[trigger] c[j]) by {
        assert(used.contains(cc[j]));
    }
    assert forall|p: u32| p < pos implies #[trigger] want(p) == l[c[ctz_index_spec(bs, p).0 as int] as int][ctz_index_spec(
        bs,
        p,
    ).1 as int] by {
        if p < pos - 1 {
            lemma_before_pos(bs, p, (pos - 1) as u32);
        }
        crate::file::lemma_ctz_byte_in_chain(l, cc, bs, size, p);
    }
}

/// The blocks extending after the block of the byte before `pos` reads are
/// in `used`: that block when it is copied, else the blocks its pointers
/// come from.
pub proof fn lemma_base_reads(
    l: Seq<Seq<u8>>,
    c: Seq<u32>,
    li: u32,
    used: Seq<LfsBlock>,
    bs: u32,
    pos: u32,
    want: spec_fn(u32) -> u8,
)
    requires
        bs >= 128,
        pos > 0,
        chain_base(l, c, li, used, bs, pos, want),
        ctz_index_spec(bs, (pos - 1) as u32).0 == li,
    ensures
        crate::ctz::extend_reads_in(l, bs, c[li as int], pos, used),
{
    reveal(chain_base);
    let (i1, o1) = ctz_index_spec(bs, (pos - 1) as u32);
    lemma_ctz_index_next(bs, (pos - 1) as u32);
    if (o1 + 1) as u32 != bs {
        assert(used.contains(c[li as int]));
    } else {
        assert forall|j: nat| j < spec_ctz((i1 + 1) as u32) implies used.contains(#[trigger] ctz_ptr_seq(l, c[li as int], j)) by {
            lemma_ctz_ptr_seq_chain(l, c, li, j);
            lemma_exp2_pos(j);
        }
    }
}

/// After extending the file into `nb`: the file's new block ends a
/// well-formed list in `usedn`, its offset matches its position, and the
/// list holds the file's bytes before the position.
pub proof fn lemma_after_extend(
    b0: Seq<Seq<u8>>,
    v1: Seq<Seq<u8>>,
    c: Seq<u32>,
    li: u32,
    nb: u32,
    noff: u32,
    bs: u32,
    pos: u32,
    want: spec_fn(u32) -> u8,
    used0: Seq<LfsBlock>,
    usedn: Seq<LfsBlock>,
)
    requires
        bs >= 128,
        forall|i: int| 0 <= i < b0.len() ==> #[trigger] b0[i].len() == bs,
        pos > 0 ==> chain_base(b0, c, li, used0, bs, pos, want),
        pos > 0 ==> ctz_index_spec(bs, (pos - 1) as u32).0 == li,
        pos > 0 ==> crate::ctz::extended_ok(b0, v1, bs, c[li as int], pos, nb),
        v1.len() == b0.len(),
        nb < v1.len(),
        v1[nb as int].len() == bs,
        crate::ctz::same_in_use(v1, b0, used0),
        !used0.contains(nb),
        noff == extend_off(bs, pos),
        usedn == used0.push(nb),
        pos < u32::MAX,
    ensures
        noff < bs,
        write_pos_ok(bs, pos, noff),
        list_ok(v1, nb, write_last(bs, pos, noff)),
        list_in(usedn, v1, nb, write_last(bs, pos, noff)),
        forall|p: u32| p < pos ==> #[trigger] list_byte(v1, bs, nb, write_last(bs, pos, noff), p) == want(p),
{
    assert(usedn.contains(nb)) by {
        assert(usedn[usedn.len() - 1] == nb);
    }
    if pos == 0 {
        lemma_index_zero(bs);
        let cn = seq![nb];
        assert(ctz_chain_ok(v1, cn, 0));
        lemma_chain_list_ok(v1, cn, 0);
        assert(list_blocks(v1, nb, 0)[0] == nb);
    } else {
        let (i1, o1) = ctz_index_spec(bs, (pos - 1) as u32);
        lemma_ctz_index_next(bs, (pos - 1) as u32);
        lemma_ctz_index_next(bs, pos);
        lemma_base_keeps(b0, v1, c, li, nb, bs, pos, want, used0);
        if (o1 + 1) as u32 != bs {
            lemma_after_copy(b0, v1, c, li, nb, noff, bs, pos, want, used0, usedn);
        } else {
            lemma_after_append(b0, v1, c, li, nb, noff, bs, pos, want, used0, usedn);
        }
    }
}

/// The blocks of a chain base in `used0` read the same after extending,
/// and none is the new block.
pub proof fn lemma_base_keeps(
    b0: Seq<Seq<u8>>,
    v1: Seq<Seq<u8>>,
    c: Seq<u32>,
    li: u32,
    nb: u32,
    bs: u32,
    pos: u32,
    want: spec_fn(u32) -> u8,
    used0: Seq<LfsBlock>,
)
    requires
        chain_base(b0, c, li, used0, bs, pos, want),
        crate::ctz::same_in_use(v1, b0, used0),
        !used0.contains(nb),
    ensures
        forall|j: int| 0 <= j <= li ==> #[trigger] v1[c[j] as int] == b0[c[j] as int] && c[j] != nb,
{
    reveal(chain_base);
    assert forall|j: int| 0 <= j <= li implies #[trigger] v1[c[j] as int] == b0[c[j] as int] && c[j] != nb by {
        assert(used0.contains(c[j]));
        let w = choose|w: int| 0 <= w < used0.len() && used0[w] == c[j];
        assert(v1[used0[w] as int] == b0[used0[w] as int]);
    }
}

/// After extending by copying a partial last block.
pub proof fn lemma_after_copy(
    b0: Seq<Seq<u8>>,
    v1: Seq<Seq<u8>>,
    c: Seq<u32>,
    li: u32,
    nb: u32,
    noff: u32,
    bs: u32,
    pos: u32,
    want: spec_fn(u32) -> u8,
    used0: Seq<LfsBlock>,
    usedn: Seq<LfsBlock>,
)
    requires
        bs >= 128,
        forall|i: int| 0 <= i < b0.len() ==> #[trigger] b0[i].len() == bs,
        pos > 0,
        chain_base(b0, c, li, used0, bs, pos, want),
        ctz_index_spec(bs, (pos - 1) as u32).0 == li,
        ctz_index_spec(bs, (pos - 1) as u32).1 + 1 < bs,
        crate::ctz::extended_ok(b0, v1, bs, c[li as int], pos, nb),
        v1.len() == b0.len(),
        nb < v1.len(),
        v1[nb as int].len() == bs,
        forall|j: int| 0 <= j <= li ==> #[trigger] v1[c[j] as int] == b0[c[j] as int] && c[j] != nb,
        noff == extend_off(bs, pos),
        usedn == used0.push(nb),
    ensures
        noff < bs,
        write_pos_ok(bs, pos, noff),
        list_ok(v1, nb, write_last(bs, pos, noff)),
        list_in(usedn, v1, nb, write_last(bs, pos, noff)),
        forall|p: u32| p < pos ==> #[trigger] list_byte(v1, bs, nb, write_last(bs, pos, noff), p) == want(p),
{
    reveal(chain_base);
    lemma_ctz_index_next(bs, (pos - 1) as u32);
    assert(c[li as int] != nb);
    assert forall|k: int| 0 <= k < noff implies #[trigger] v1[nb as int][k] == b0[c[li as int] as int][k] by {
        assert(v1[nb as int].subrange(0, noff as int)[k] == b0[c[li as int] as int].subrange(0, noff as int)[k]);
    }
    lemma_extend_copied(b0, v1, c, li, nb, bs, pos, noff, want);
    assert(write_last(bs, pos, noff) == li);
    lemma_used_after_push(used0, usedn, c.update(li as int, nb), li, nb);
}

/// After extending past a full last block.
pub proof fn lemma_after_append(
    b0: Seq<Seq<u8>>,
    v1: Seq<Seq<u8>>,
    c: Seq<u32>,
    li: u32,
    nb: u32,
    noff: u32,
    bs: u32,
    pos: u32,
    want: spec_fn(u32) -> u8,
    used0: Seq<LfsBlock>,
    usedn: Seq<LfsBlock>,
)
    requires
        bs >= 128,
        pos > 0,
        pos < u32::MAX,
        chain_base(b0, c, li, used0, bs, pos, want),
        ctz_index_spec(bs, (pos - 1) as u32).0 == li,
        ctz_index_spec(bs, (pos - 1) as u32).1 + 1 == bs,
        crate::ctz::extended_ok(b0, v1, bs, c[li as int], pos, nb),
        v1.len() == b0.len(),
        nb < v1.len(),
        v1[nb as int].len() == bs,
        forall|j: int| 0 <= j <= li ==> #[trigger] v1[c[j] as int] == b0[c[j] as int] && c[j] != nb,
        noff == extend_off(bs, pos),
        usedn == used0.push(nb),
    ensures
        noff < bs,
        write_pos_ok(bs, pos, noff),
        list_ok(v1, nb, write_last(bs, pos, noff)),
        list_in(usedn, v1, nb, write_last(bs, pos, noff)),
        forall|p: u32| p < pos ==> #[trigger] list_byte(v1, bs, nb, write_last(bs, pos, noff), p) == want(p),
{
    reveal(chain_base);
    lemma_ctz_index_next(bs, (pos - 1) as u32);
    lemma_ctz_index_next(bs, pos);
    assert forall|j: nat| j < spec_ctz((li + 1) as u32) implies #[trigger] ctz_ptr_seq(b0, c[li as int], j) != nb by {
        lemma_ctz_ptr_seq_chain(b0, c, li, j);
        lemma_exp2_pos(j);
    }
    lemma_extend_appended(b0, v1, c, li, nb, bs, pos, want);
    assert(write_last(bs, pos, noff) == li + 1);
    lemma_used_after_push(used0, usedn, c.push(nb), (li + 1) as u32, nb);
}

/// A list whose blocks but the last are in `up` has all its blocks in
/// `up` with the last pushed.
pub proof fn lemma_used_after_push(up: Seq<LfsBlock>, used: Seq<LfsBlock>, c: Seq<u32>, li: u32, nb: u32)
    requires
        used == up.push(nb),
        c.len() == li + 1,
        c[li as int] == nb,
        forall|j: int| 0 <= j < li ==> up.contains(#[trigger] c[j]),
    ensures
        forall|j: int| 0 <= j <= li ==> used.contains(#[trigger] c[j]),
{
    assert forall|j: int| 0 <= j <= li implies used.contains(#[trigger] c[j]) by {
        if j < li {
            let w = choose|w: int| 0 <= w < up.len() && up[w] == c[j];
            assert(used[w] == c[j]);
        } else {
            assert(used[used.len() - 1] == c[j]);
        }
    }
}

/// Extending into a block that copied the last block's bytes before
/// offset `noff` gives a well-formed list ending in it, that reads as
/// before at every position before `pos`.
pub proof fn lemma_extend_copied(
    l0: Seq<Seq<u8>>,
    v1: Seq<Seq<u8>>,
    c: Seq<u32>,
    li: u32,
    nb: u32,
    bs: u32,
    pos: u32,
    noff: u32,
    want: spec_fn(u32) -> u8,
)
    requires
        bs >= 128,
        li < 0x400_0000,
        c.len() == li + 1,
        ctz_chain_ok(l0, c, li as int),
        blocks_distinct(c, li as int),
        v1.len() == l0.len(),
        nb < v1.len(),
        l0[c[li as int] as int].len() == bs,
        v1[nb as int].len() == bs,
        forall|j: int| 0 <= j <= li ==> #[trigger] v1[c[j] as int] == l0[c[j] as int] && c[j] != nb,
        forall|k: int| 0 <= k < noff ==> #[trigger] v1[nb as int][k] == l0[c[li as int] as int][k],
        pos > 0,
        noff > 0,
        ctz_index_spec(bs, (pos - 1) as u32) == (li, (noff - 1) as u32),
        noff < bs,
        forall|p: u32|
            p < pos ==> #[trigger] want(p) == l0[c[ctz_index_spec(bs, p).0 as int] as int][ctz_index_spec(
                bs,
                p,
            ).1 as int],
    ensures
        ctz_index_spec(bs, pos) == (li, noff),
        list_ok(v1, nb, li),
        list_blocks(v1, nb, li) == c.update(li as int, nb),
        forall|p: u32| p < pos ==> #[trigger] list_byte(v1, bs, nb, li, p) == want(p),
{
    lemma_ctz_index_next(bs, (pos - 1) as u32);
    assert forall|j: int| 0 <= j < li implies #[trigger] v1[c[j] as int] == l0[c[j] as int] && c[j] != nb by {}
    lemma_moved_head(l0, v1, c, li, nb, bs, pos, noff, want);
    let cn = c.update(li as int, nb);
    lemma_chain_list_ok(v1, cn, li);
    assert forall|p: u32| p < pos implies #[trigger] list_byte(v1, bs, nb, li, p) == want(p) by {
        lemma_before_pos(bs, p, pos);
        lemma_list_byte(v1, bs, cn, li, p);
    }
}

/// Extending after a full last block into a block holding the collected
/// pointers gives a well-formed list ending in it, one block longer, that
/// reads as before at every position before `pos`.
pub proof fn lemma_extend_appended(
    l0: Seq<Seq<u8>>,
    v1: Seq<Seq<u8>>,
    c: Seq<u32>,
    li: u32,
    nb: u32,
    bs: u32,
    pos: u32,
    want: spec_fn(u32) -> u8,
)
    requires
        bs >= 128,
        li < 0x400_0000,
        c.len() == li + 1,
        ctz_chain_ok(l0, c, li as int),
        blocks_distinct(c, li as int),
        v1.len() == l0.len(),
        forall|j: int| 0 <= j <= li ==> #[trigger] v1[c[j] as int] == l0[c[j] as int] && c[j] != nb,
        nb < v1.len(),
        v1[nb as int].len() == bs,
        pos > 0,
        ctz_index_spec(bs, (pos - 1) as u32) == (li, (bs - 1) as u32),
        forall|k: nat|
            k <= spec_ctz((li + 1) as u32) ==> #[trigger] crate::util::le32_of(v1[nb as int].subrange(
                4 * k as int,
                4 * k as int + 4,
            )) == ctz_ptr_seq(l0, c[li as int], k),
        forall|p: u32|
            p < pos ==> #[trigger] want(p) == l0[c[ctz_index_spec(bs, p).0 as int] as int][ctz_index_spec(
                bs,
                p,
            ).1 as int],
    ensures
        ctz_index_spec(bs, pos) == ((li + 1) as u32, ctz_ptr_bytes((li + 1) as nat) as u32),
        li + 1 < 0x400_0000,
        list_ok(v1, nb, (li + 1) as u32),
        list_blocks(v1, nb, (li + 1) as u32) == c.push(nb),
        forall|p: u32| p < pos ==> #[trigger] list_byte(v1, bs, nb, (li + 1) as u32, p) == want(p),
{
    lemma_appended_block(l0, v1, c, li, nb, bs, pos, want);
    lemma_ctz_index_layout(bs, pos);
    let cn = c.push(nb);
    lemma_chain_list_ok(v1, cn, (li + 1) as u32);
    assert forall|p: u32| p < pos implies #[trigger] list_byte(v1, bs, nb, (li + 1) as u32, p) == want(p) by {
        lemma_before_pos(bs, p, pos);
        lemma_list_byte(v1, bs, cn, (li + 1) as u32, p);
    }
}

/// The state an inline file must be in to be written: its cache holds its
/// data from offset 0, in full, and a file of the largest inline size fits
/// it and a block.
pub open spec fn inline_write_ok<D: BlockDevice>(lfs: Lfs<D>, file: LfsFile) -> bool {
    &&& file.cache.block == LFS_BLOCK_INLINE
    &&& file.cache.off == 0
    &&& file.cache.size == lfs.cfg.cache_size
    &&& file.cache.buffer@.len() == lfs.cfg.cache_size
    &&& file.pos <= lfs.inline_max
    &&& lfs.inline_max <= lfs.cfg.cache_size
    &&& lfs.inline_max < lfs.cfg.block_size
}

/// The flags with the erred bit set.
pub(crate) fn set_erred(flags: u32) -> (r: u32)
    ensures
        r == flags | LfsOpenFlags::Erred.spec_bits(),
        has_flag(r, LfsOpenFlags::Erred),
{
    assert((flags | 0x080000u32) & 0x080000u32 != 0) by (bit_vector);
    flags | LfsOpenFlags::Erred.bits()
}

/// A copy of the blocks of `s`.
pub(crate) fn copy_blocks(s: &[LfsBlock]) -> (v: Vec<LfsBlock>)
    ensures
        v@ == s@,
{
    let mut v: Vec<LfsBlock> = Vec::new();
    let mut i: usize = 0;
    while i < s.len()
        invariant
            i <= s@.len(),
            v@ == s@.subrange(0, i as int),
        decreases s@.len() - i,
    {
        v.push(s[i]);
        i = i + 1;
        proof {
            assert(v@ =~= s@.subrange(0, i as int));
        }
    }
    proof {
        assert(s@.subrange(0, s@.len() as int) =~= s@);
    }
    v
}

/// Appends the blocks of `w` to `v`.
pub(crate) fn push_blocks(v: &mut Vec<LfsBlock>, w: &Vec<LfsBlock>)
    ensures
        final(v)@ == old(v)@ + w@,
{
    let mut i: usize = 0;
    while i < w.len()
        invariant
            i <= w@.len(),
            v@ == old(v)@ + w@.subrange(0, i as int),
        decreases w@.len() - i,
    {
        v.push(w[i]);
        i = i + 1;
        proof {
            assert(v@ =~= old(v)@ + w@.subrange(0, i as int));
        }
    }
    proof {
        assert(w@.subrange(0, w@.len() as int) =~= w@);
    }
}

/// Setting a bit a value already has leaves it as it is.
pub proof fn lemma_or_present(f: u32)
    ensures
        f & 0x020000u32 != 0 ==> f | 0x020000u32 == f,
{
    assert(f & 0x020000u32 != 0 ==> f | 0x020000u32 == f) by (bit_vector);
}

/// After an inline file of `pos` bytes moved out to a block of its own:
/// it is a file being written whose list is that one block, holding the
/// bytes its cache held.
pub proof fn lemma_outlined<D: BlockDevice>(lfs0: Lfs<D>, file0: LfsFile, lfs1: Lfs<D>, file1: LfsFile)
    requires
        lfs0.cfg.block_size >= 128,
        lfs1.cfg == lfs0.cfg,
        lfs1.caches_ok(),
        inline_write_ok(lfs0, file0),
        has_flag(file0.flags, LfsOpenFlags::Inline),
        file1.pos == file0.pos,
        file1.off == file0.pos,
        file1.block < lfs1.block_count,
        !has_flag(file1.flags, LfsOpenFlags::Inline),
        has_flag(file1.flags, LfsOpenFlags::Writing),
        pcache_ok(lfs1.cfg, lfs1.bd.blocks(), file1.cache),
        file1.cache.block == LFS_BLOCK_NULL || file1.cache.block == file1.block,
        write_window(lfs1.cfg, file1.cache, file1.block, file1.off),
        crate::file::moved_ok(
            lfs0,
            LfsFile { off: file0.pos, ..file0 },
            overlay(lfs1.bd.blocks(), file1.cache)[file1.block as int],
            file0.pos as int,
        ),
    ensures
        writing_ok(lfs1, file1),
        write_last(lfs1.cfg.block_size, file1.pos, file1.off) == 0,
        list_blocks(overlay(lfs1.bd.blocks(), file1.cache), file1.block, 0) == seq![file1.block],
        forall|p: u32| p < file0.pos ==> #[trigger] open_byte(lfs1, file1, p) == open_byte(lfs0, file0, p),
{
    let bs = lfs0.cfg.block_size;
    let v = overlay(lfs1.bd.blocks(), file1.cache);
    lemma_index_first_block(bs, file0.pos);
    lemma_overlay_index(lfs1.cfg, lfs1.bd.blocks(), file1.cache, file1.block as int, 0);
    let cn = seq![file1.block];
    assert(ctz_chain_ok(v, cn, 0));
    lemma_chain_list_ok(v, cn, 0);
    assert(inline_cache_covers(file0.cache, 0, file0.pos));
    assert forall|p: u32| p < file0.pos implies #[trigger] open_byte(lfs1, file1, p) == open_byte(lfs0, file0, p) by {
        lemma_index_first_block(bs, p);
        lemma_list_byte(v, bs, cn, 0, p);
    }
}

/// The blocks that writing a file must avoid and keep: `in_use` followed
/// by the blocks of the list the file is writing, as following first
/// pointers lists them, are all marked and hold that list.
pub proof fn lemma_used_start(
    la: crate::defines::LfsLookahead,
    bc: u32,
    in_use: Seq<LfsBlock>,
    v: Seq<Seq<u8>>,
    head: u32,
    li: u32,
    trav: Seq<LfsBlock>,
)
    requires
        marks_all(la, bc, in_use),
        marks_all(la, bc, list_blocks(v, head, li)),
        list_ok(v, head, li),
        trav == index_chain(v, head, li as nat),
    ensures
        marks_all(la, bc, in_use + trav),
        list_in(in_use + trav, v, head, li),
        forall|i: int| 0 <= i < trav.len() ==> #[trigger] trav[i] < v.len(),
{
    let c = list_blocks(v, head, li);
    assert(c[li as int] == head);
    lemma_index_traverse_chain(v, c, li, li);
    assert forall|i: int| 0 <= i < trav.len() implies #[trigger] trav[i] < v.len() by {
        assert(trav[i] == c[li - i]);
    }
    assert forall|i: int| 0 <= i < trav.len() implies c.contains(#[trigger] trav[i]) by {
        assert(trav[i] == c[li - i]);
    }
    lemma_marks_subset(la, bc, c, trav);
    lemma_marks_concat(la, bc, in_use, trav);
    let u = in_use + trav;
    assert forall|j: int| 0 <= j <= li implies u.contains(#[trigger] list_blocks(v, head, li)[j]) by {
        assert(trav[li - j] == c[j]);
        assert(u[in_use.len() + li - j] == c[j]);
    }
}

/// A list in `a` is in any `b` that begins with `a`.
pub proof fn lemma_list_in_prefix(a: Seq<LfsBlock>, b: Seq<LfsBlock>, l: Seq<Seq<u8>>, head: u32, last: u32)
    requires
        list_in(a, l, head, last),
        b.len() >= a.len(),
        forall|i: int| 0 <= i < a.len() ==> #[trigger] b[i] == a[i],
    ensures
        list_in(b, l, head, last),
{
    assert forall|j: int| 0 <= j <= last implies b.contains(#[trigger] list_blocks(l, head, last)[j]) by {
        let x = list_blocks(l, head, last)[j];
        assert(a.contains(x));
        let w = choose|w: int| 0 <= w < a.len() && a[w] == x;
        assert(b[w] == x);
    }
}

/// A committed list whose blocks in `in_use` the device keeps stays well
/// formed and reads the same.
pub proof fn lemma_committed_kept<D: BlockDevice>(
    lfs0: Lfs<D>,
    file0: LfsFile,
    lfs1: Lfs<D>,
    file1: LfsFile,
    in_use: Seq<LfsBlock>,
)
    requires
        lfs0.cfg.block_size >= 128,
        lfs1.cfg == lfs0.cfg,
        lfs1.block_count == lfs0.block_count,
        lfs1.bd.blocks().len() == lfs0.bd.blocks().len(),
        file1.ctz == file0.ctz,
        committed_ok(lfs0, file0, in_use),
        forall|j: int| 0 <= j < in_use.len() ==> #[trigger] lfs1.bd.blocks()[in_use[j] as int] == lfs0.bd.blocks()[in_use[j] as int],
    ensures
        committed_ok(lfs1, file1, in_use),
        forall|p: u32|
            p < file0.ctz.size ==> #[trigger] ctz_byte(lfs1.bd.blocks(), lfs0.cfg.block_size, file0.ctz.head, file0.ctz.size, p)
                == ctz_byte(lfs0.bd.blocks(), lfs0.cfg.block_size, file0.ctz.head, file0.ctz.size, p),
{
    let bs = lfs0.cfg.block_size;
    if file0.ctz.size > 0 {
        let last = ctz_index_spec(bs, (file0.ctz.size - 1) as u32).0;
        let l = lfs0.bd.blocks();
        let head = file0.ctz.head;
        assert forall|j: int| 0 <= j <= last implies #[trigger] lfs1.bd.blocks()[list_blocks(l, head, last)[j] as int]
            == l[list_blocks(l, head, last)[j] as int] by {
            let x = list_blocks(l, head, last)[j];
            assert(in_use.contains(x));
            let w = choose|w: int| 0 <= w < in_use.len() && in_use[w] == x;
        }
        lemma_list_same_blocks(l, lfs1.bd.blocks(), bs, head, last);
        assert forall|p: u32| p < file0.ctz.size implies #[trigger] ctz_byte(lfs1.bd.blocks(), bs, head, file0.ctz.size, p)
            == ctz_byte(l, bs, head, file0.ctz.size, p) by {
            if p < file0.ctz.size - 1 {
                lemma_before_pos(bs, p, (file0.ctz.size - 1) as u32);
            }
            assert(list_byte(lfs1.bd.blocks(), bs, head, last, p) == list_byte(l, bs, head, last, p));
        }
    }
}

/// A window that marks every block of two lists marks every block of both together.
pub proof fn lemma_marks_concat(la: crate::defines::LfsLookahead, bc: u32, a: Seq<LfsBlock>, b: Seq<LfsBlock>)
    requires
        marks_all(la, bc, a),
        marks_all(la, bc, b),
    ensures
        marks_all(la, bc, a + b),
{
    let ab = a + b;
    assert forall|i: int|
        0 <= i < ab.len() && ab[i] < bc && la.next <= la_off(la.start, bc, ab[i]) < la.size implies #[trigger] crate::allocator::la_marked(
        la.buffer@,
        la_off(la.start, bc, ab[i]),
    ) by {
        if i < a.len() {
            assert(ab[i] == a[i]);
        } else {
            assert(ab[i] == b[i - a.len()]);
        }
    }
}

/// A window that marks every block of `in_use` with `b` pushed marks `b`
/// alone and `in_use` alone.
pub proof fn lemma_marks_split(la: crate::defines::LfsLookahead, bc: u32, in_use: Seq<LfsBlock>, b: LfsBlock)
    requires
        marks_all(la, bc, in_use.push(b)),
    ensures
        marks_all(la, bc, seq![b]),
        marks_all(la, bc, in_use),
{
    let u = in_use.push(b);
    assert(u[in_use.len() as int] == b);
    assert forall|i: int| 0 <= i < 1 implies u.contains(#[trigger] seq![b][i]) by {
        assert(u[in_use.len() as int] == seq![b][i]);
    }
    lemma_marks_subset(la, bc, u, seq![b]);
    assert forall|i: int| 0 <= i < in_use.len() implies u.contains(#[trigger] in_use[i]) by {
        assert(u[i] == in_use[i]);
    }
    lemma_marks_subset(la, bc, u, in_use);
}

/// A byte within the first block's size lies in the first block, at its
/// own position.
pub proof fn lemma_index_first_block(bs: u32, p: u32)
    requires
        bs >= 128,
        p < bs,
    ensures
        ctz_index_spec(bs, p) == (0u32, p),
{
    lemma_ctz_index_layout(bs, p);
    if ctz_index_spec(bs, p).0 > 0 {
        crate::ctz::lemma_block_start_grows(bs, 1, ctz_index_spec(bs, p).0 as nat);
        assert(crate::ctz::ctz_block_start(bs, 1) == bs) by {
            reveal_with_fuel(crate::ctz::ctz_block_start, 2);
        }
    }
    assert(crate::ctz::ctz_block_start(bs, 0) == 0);
}

/// A well-formed list stays one, with the same blocks and bytes, on a
/// device that agrees on its blocks.
pub proof fn lemma_list_same_blocks(l: Seq<Seq<u8>>, l2: Seq<Seq<u8>>, bs: u32, head: u32, last: u32)
    requires
        list_ok(l, head, last),
        l2.len() == l.len(),
        forall|j: int| 0 <= j <= last ==> #[trigger] l2[list_blocks(l, head, last)[j] as int] == l[list_blocks(l, head, last)[j] as int],
    ensures
        list_ok(l2, head, last),
        list_blocks(l2, head, last) == list_blocks(l, head, last),
        forall|p: u32|
            ctz_index_spec(bs, p).0 <= last ==> #[trigger] list_byte(l2, bs, head, last, p) == list_byte(l, bs, head, last, p),
{
    let c = list_blocks(l, head, last);
    lemma_chain_same_blocks(l, l2, c, last);
    assert(c[last as int] == head);
    lemma_chain_is_list(l2, c, last);
    assert forall|p: u32| ctz_index_spec(bs, p).0 <= last implies #[trigger] list_byte(l2, bs, head, last, p)
        == list_byte(l, bs, head, last, p) by {
        lemma_list_byte(l2, bs, c, last, p);
        lemma_list_byte(l, bs, c, last, p);
    }
}

/// Byte 0 of a file is the first byte of its first block.
pub proof fn lemma_index_zero(bs: u32)
    requires
        bs >= 128,
    ensures
        ctz_index_spec(bs, 0) == (0u32, 0u32),
{
    lemma_ctz_index_layout(bs, 0);
    if ctz_index_spec(bs, 0).0 > 0 {
        crate::ctz::lemma_block_start_grows(bs, 1, ctz_index_spec(bs, 0).0 as nat);
        assert(crate::ctz::ctz_block_start(bs, 1) == bs) by {
            reveal_with_fuel(crate::ctz::ctz_block_start, 2);
        }
    }
}

/// Programming `chunk` at offset `off` of the last block of a well-formed
/// chain of distinct blocks, where position `pos` lies, keeps the chain
/// and every byte before `pos`, and puts the chunk's bytes at the positions
/// that follow.
pub proof fn lemma_prog_in_head(
    vb: Seq<Seq<u8>>,
    vn: Seq<Seq<u8>>,
    cb: Seq<u32>,
    li: u32,
    bs: u32,
    pos: u32,
    off: u32,
    chunk: Seq<u8>,
    want: spec_fn(u32) -> u8,
)
    requires
        bs >= 128,
        li < 0x400_0000,
        cb.len() == li + 1,
        ctz_chain_ok(vb, cb, li as int),
        blocks_distinct(cb, li as int),
        vb[cb[li as int] as int].len() == bs,
        vn == vb.update(cb[li as int] as int, crate::bd::splice(vb[cb[li as int] as int], off as int, chunk)),
        ctz_index_spec(bs, pos) == (li, off),
        ctz_ptr_bytes(li as nat) <= off,
        chunk.len() > 0,
        off + chunk.len() <= bs,
        pos + chunk.len() <= u32::MAX,
        forall|p: u32|
            p < pos ==> #[trigger] want(p) == vb[cb[ctz_index_spec(bs, p).0 as int] as int][ctz_index_spec(
                bs,
                p,
            ).1 as int],
    ensures
        list_ok(vn, cb[li as int], li),
        list_blocks(vn, cb[li as int], li) == cb,
        forall|p: u32| p < pos ==> #[trigger] list_byte(vn, bs, cb[li as int], li, p) == want(p),
        forall|j: int|
            0 <= j < chunk.len() ==> #[trigger] list_byte(vn, bs, cb[li as int], li, (pos + j) as u32) == chunk[j],
        off + chunk.len() < bs ==> ctz_index_spec(bs, (pos + chunk.len()) as u32) == (li, (off + chunk.len()) as u32),
        off + chunk.len() == bs ==> ctz_index_spec(bs, (pos + chunk.len() - 1) as u32) == (li, (bs - 1) as u32),
        ctz_index_spec(bs, (pos + chunk.len() - 1) as u32).0 == li,
{
    let h = cb[li as int];
    assert forall|j: int| 0 <= j < li implies #[trigger] vn[cb[j] as int] == vb[cb[j] as int] by {
        assert(cb[j] != cb[li as int]);
    }
    lemma_chain_move_head(vb, vn, cb, li, h, off as int);
    assert(cb.update(li as int, h) =~= cb);
    lemma_chain_list_ok(vn, cb, li);
    let len = chunk.len();
    lemma_ctz_index_run(bs, pos, (len - 1) as u32);
    if off + len < bs {
        lemma_ctz_index_run(bs, pos, len as u32);
    }
    assert forall|p: u32| p < pos implies #[trigger] list_byte(vn, bs, h, li, p) == want(p) by {
        lemma_before_pos(bs, p, pos);
        lemma_list_byte(vn, bs, cb, li, p);
        if ctz_index_spec(bs, p).0 < li {
            assert(cb[ctz_index_spec(bs, p).0 as int] != h);
        }
    }
    assert forall|j: int| 0 <= j < len implies #[trigger] list_byte(vn, bs, h, li, (pos + j) as u32) == chunk[j] by {
        lemma_ctz_index_run(bs, pos, j as u32);
        lemma_list_byte(vn, bs, cb, li, (pos + j) as u32);
    }
}

/// Writing out a file's cache keeps its list: a well-formed chain of
/// distinct blocks that agrees with the device on every block but the
/// last, and on the last's bytes before `off`, past every byte before
/// `pos`, is the device's list of those blocks, holding those bytes.
pub proof fn lemma_flush_keeps_list(
    vb: Seq<Seq<u8>>,
    bn: Seq<Seq<u8>>,
    cb: Seq<u32>,
    li: u32,
    blk: u32,
    bs: u32,
    pos: u32,
    off: u32,
    want: spec_fn(u32) -> u8,
)
    requires
        bs >= 128,
        li < 0x400_0000,
        cb.len() == li + 1,
        ctz_chain_ok(vb, cb, li as int),
        blocks_distinct(cb, li as int),
        cb[li as int] == blk,
        pos > 0,
        ctz_index_spec(bs, (pos - 1) as u32).0 == li,
        ctz_index_spec(bs, (pos - 1) as u32).1 < off,
        off <= bs,
        forall|p: u32|
            p < pos ==> #[trigger] want(p) == vb[cb[ctz_index_spec(bs, p).0 as int] as int][ctz_index_spec(
                bs,
                p,
            ).1 as int],
        bn.len() == vb.len(),
        blk < bn.len(),
        vb[blk as int].len() == bs,
        bn[blk as int].len() == bs,
        forall|j: int| 0 <= j < li ==> #[trigger] bn[cb[j] as int] == vb[cb[j] as int],
        forall|k: int| 0 <= k < off ==> #[trigger] bn[blk as int][k] == vb[blk as int][k],
    ensures
        list_ok(bn, blk, li),
        list_blocks(bn, blk, li) == cb,
        forall|p: u32| p < pos ==> #[trigger] list_byte(bn, bs, blk, li, p) == want(p),
{
    lemma_ctz_index_next(bs, (pos - 1) as u32);
    assert forall|j: int| 0 <= j < li implies #[trigger] cb[j] != blk by {
        assert(cb[j] != cb[li as int]);
    }
    lemma_chain_move_head(vb, bn, cb, li, blk, off as int);
    assert(cb.update(li as int, blk) =~= cb);
    lemma_chain_list_ok(bn, cb, li);
    assert forall|p: u32| p < pos implies #[trigger] list_byte(bn, bs, blk, li, p) == want(p) by {
        if p < pos - 1 {
            lemma_before_pos(bs, p, (pos - 1) as u32);
        }
        lemma_list_byte(bn, bs, cb, li, p);
        if ctz_index_spec(bs, p).0 < li {
            assert(bn[cb[ctz_index_spec(bs, p).0 as int] as int] == vb[cb[ctz_index_spec(bs, p).0 as int] as int]);
        }
    }
}

/// Moving the last block of a well-formed chain of distinct blocks to a
/// new block that holds its bytes before offset `off`, where position
/// `pos` lies, keeps the chain well formed and every byte before `pos`.
pub proof fn lemma_moved_head(
    vb: Seq<Seq<u8>>,
    vn: Seq<Seq<u8>>,
    cb: Seq<u32>,
    li: u32,
    nb: u32,
    bs: u32,
    pos: u32,
    off: u32,
    want: spec_fn(u32) -> u8,
)
    requires
        bs >= 128,
        li < 0x400_0000,
        cb.len() == li + 1,
        ctz_chain_ok(vb, cb, li as int),
        blocks_distinct(cb, li as int),
        vn.len() == vb.len(),
        nb < vn.len(),
        vb[cb[li as int] as int].len() == bs,
        vn[nb as int].len() == bs,
        forall|j: int| 0 <= j < li ==> #[trigger] vn[cb[j] as int] == vb[cb[j] as int] && cb[j] != nb,
        forall|k: int| 0 <= k < off ==> #[trigger] vn[nb as int][k] == vb[cb[li as int] as int][k],
        ctz_index_spec(bs, pos) == (li, off),
        ctz_ptr_bytes(li as nat) <= off <= bs,
        forall|p: u32|
            p < pos ==> #[trigger] want(p) == vb[cb[ctz_index_spec(bs, p).0 as int] as int][ctz_index_spec(
                bs,
                p,
            ).1 as int],
    ensures
        ctz_chain_ok(vn, cb.update(li as int, nb), li as int),
        blocks_distinct(cb.update(li as int, nb), li as int),
        forall|p: u32|
            p < pos ==> #[trigger] want(p) == vn[cb.update(li as int, nb)[ctz_index_spec(bs, p).0 as int] as int][ctz_index_spec(
                bs,
                p,
            ).1 as int],
{
    let cn = cb.update(li as int, nb);
    assert forall|j: int| 0 <= j < li implies #[trigger] vn[cb[j] as int] == vb[cb[j] as int] by {}
    assert forall|j: int| 0 <= j < li implies #[trigger] cb[j] != nb by {}
    lemma_chain_move_head(vb, vn, cb, li, nb, off as int);
    assert forall|p: u32| p < pos implies #[trigger] want(p) == vn[cn[ctz_index_spec(bs, p).0 as int] as int][ctz_index_spec(
        bs,
        p,
    ).1 as int] by {
        lemma_before_pos(bs, p, pos);
        if ctz_index_spec(bs, p).0 < li {
            assert(cn[ctz_index_spec(bs, p).0 as int] == cb[ctz_index_spec(bs, p).0 as int]);
        }
    }
}

/// A byte before position `pos` lies in the block of `pos` or an earlier
/// one, and before it when in the same block.
pub proof fn lemma_before_pos(block_size: u32, p: u32, pos: u32)
    requires
        block_size >= 128,
        p < pos,
    ensures
        ctz_index_spec(block_size, p).0 <= ctz_index_spec(block_size, pos).0,
        ctz_index_spec(block_size, p).0 == ctz_index_spec(block_size, pos).0 ==> ctz_index_spec(block_size, p).1
            < ctz_index_spec(block_size, pos).1,
{
    lemma_ctz_index_layout(block_size, p);
    lemma_ctz_index_layout(block_size, pos);
    if ctz_index_spec(block_size, p).0 > ctz_index_spec(block_size, pos).0 {
        crate::ctz::lemma_block_start_grows(
            block_size,
            (ctz_index_spec(block_size, pos).0 + 1) as nat,
            ctz_index_spec(block_size, p).0 as nat,
        );
    }
}

/// How the flag updates of an open file's operations change its reading,
/// writing, inline, dirty, erred and append bits: clearing reading; ending a
/// write (clearing writing, setting dirty); clearing erred; marking a
/// truncated file dirty and reading, and inline when it becomes so.
pub proof fn lemma_flag_facts(f: u32)
    by (bit_vector)
    ensures
        (f & !0x040000u32) & 0x040000u32 == 0,
        ((f & !0x040000u32) & 0x020000u32 != 0) == (f & 0x020000u32 != 0),
        ((f & !0x040000u32) & 0x100000u32 != 0) == (f & 0x100000u32 != 0),
        ((f & !0x020000u32) | 0x010000u32) & 0x020000u32 == 0,
        ((f & !0x020000u32) | 0x010000u32) & 0x010000u32 != 0,
        (((f & !0x020000u32) | 0x010000u32) & 0x100000u32 != 0) == (f & 0x100000u32 != 0),
        (((f & !0x020000u32) | 0x010000u32) & 0x040000u32 != 0) == (f & 0x040000u32 != 0),
        ((f & !0x080000u32) & 0x020000u32 != 0) == (f & 0x020000u32 != 0),
        ((f & !0x080000u32) & 0x100000u32 != 0) == (f & 0x100000u32 != 0),
        ((f & !0x080000u32) & 0x040000u32 != 0) == (f & 0x040000u32 != 0),
        (f & !0x080000u32) & 0x080000u32 == 0,
        ((f | 0x020000u32) & 0x040000u32 != 0) == (f & 0x040000u32 != 0),
        (((f | 0x020000u32) & !0x100000u32) & 0x040000u32 != 0) == (f & 0x040000u32 != 0),
        ((f & !0x040000u32) & 0x0800u32 != 0) == (f & 0x0800u32 != 0),
        (f | 0x010000u32 | 0x040000u32 | 0x100000u32) & 0x040000u32 != 0,
        (f | 0x010000u32 | 0x040000u32 | 0x100000u32) & 0x100000u32 != 0,
        ((f | 0x010000u32 | 0x040000u32 | 0x100000u32) & 0x020000u32 != 0) == (f & 0x020000u32 != 0),
        (f | 0x010000u32 | 0x040000u32) & 0x040000u32 != 0,
        ((f | 0x010000u32 | 0x040000u32) & 0x100000u32 != 0) == (f & 0x100000u32 != 0),
        ((f | 0x010000u32 | 0x040000u32) & 0x020000u32 != 0) == (f & 0x020000u32 != 0),
        1u32 & 0x040000u32 == 0,
        1u32 & 0x100000u32 == 0,
        1u32 & 0x020000u32 == 0,
{
}

/// Setting a bit twice sets it once.
pub proof fn lemma_or_twice(f: u32, b: u32)
    ensures
        (f | b) | b == f | b,
{
    assert((f | b) | b == f | b) by (bit_vector);
}

/// What byte `p` of a file should read after `data` is written at its
/// position: `data` from the position on, the file as it was before it.
pub open spec fn write_want<D: BlockDevice>(lfs0: Lfs<D>, file0: LfsFile, data: Seq<u8>, p: u32) -> u8 {
    if p < file0.pos {
        open_byte(lfs0, file0, p)
    } else {
        data[p - file0.pos]
    }
}

/// The state part way through writing `data` at the position of `file0`,
/// `done` bytes in, with `used` the blocks to avoid and keep.
#[verifier::opaque]
pub open spec fn write_progress<D: BlockDevice>(
    lfs: Lfs<D>,
    file: LfsFile,
    used: Seq<LfsBlock>,
    in_use: Seq<LfsBlock>,
    lfs0: Lfs<D>,
    file0: LfsFile,
    data: Seq<u8>,
    done: int,
) -> bool {
    let bs = lfs0.cfg.block_size;
    let w = LfsOpenFlags::Writing.spec_bits();
    &&& lfs.caches_ok()
    &&& bs >= 128
    &&& lfs.pcache.block == LFS_BLOCK_NULL
    &&& same_but_io(lfs, lfs0)
    &&& lookahead_ok(lfs.lookahead, lfs.cfg.lookahead_size, lfs.block_count)
    &&& 0 < lfs.cfg.lookahead_size <= 0x1000_0000
    &&& lfs.bd.blocks().len() == lfs0.bd.blocks().len()
    &&& forall|i: int| 0 <= i < used.len() ==> #[trigger] used[i] < lfs.block_count
    &&& used.len() >= in_use.len()
    &&& forall|i: int| 0 <= i < in_use.len() ==> #[trigger] used[i] == in_use[i]
    &&& marks_all(lfs.lookahead, lfs.block_count, used)
    &&& marks_all(lfs.lookahead, lfs.block_count, in_use)
    &&& crate::ctz::same_in_use(lfs.bd.blocks(), lfs0.bd.blocks(), in_use)
    &&& file.id == file0.id
    &&& file.type_ == file0.type_
    &&& file.m == file0.m
    &&& file.ctz == file0.ctz
    &&& file.id < 0x3ff
    &&& 0 <= done <= data.len()
    &&& data.len() > 0
    &&& file.pos == file0.pos + done
    &&& file0.pos + data.len() <= u32::MAX
    &&& forall|p: u32| p < file.pos ==> #[trigger] open_byte(lfs, file, p) == write_want(lfs0, file0, data, p)
    &&& has_flag(file.flags, LfsOpenFlags::Inline) ==> {
        &&& has_flag(file0.flags, LfsOpenFlags::Inline)
        &&& inline_write_ok(lfs, file)
        &&& file0.pos + data.len() <= lfs.inline_max
        &&& forall|k: int|
            0 <= k < lfs.cfg.cache_size && k >= file.pos ==> #[trigger] file.cache.buffer@[k] == file0.cache.buffer@[k]
        &&& done > 0 ==> has_flag(file.flags, LfsOpenFlags::Writing)
        &&& has_flag(file.flags, LfsOpenFlags::Writing) ==> file.off == file.pos
        &&& (file.flags == file0.flags || file.flags == (file0.flags | w))
    }
    &&& !has_flag(file.flags, LfsOpenFlags::Inline) ==> {
        &&& has_flag(file.flags, LfsOpenFlags::Writing) ==> {
            &&& writing_ok(lfs, file)
            &&& list_in(used, overlay(lfs.bd.blocks(), file.cache), file.block, write_last(bs, file.pos, file.off))
            &&& !in_use.contains(file.block)
        }
        &&& !has_flag(file.flags, LfsOpenFlags::Writing) ==> {
            &&& done == 0
            &&& rcache_ok(lfs.cfg, lfs.bd.blocks(), file.cache)
            &&& file.pos <= file.ctz.size
            &&& committed_ok(lfs, file, used)
            &&& file.cache.size <= lfs.cfg.cache_size
        }
        &&& done > 0 ==> has_flag(file.flags, LfsOpenFlags::Writing)
    }
    &&& !has_flag(file0.flags, LfsOpenFlags::Inline) ==> {
        &&& !has_flag(file.flags, LfsOpenFlags::Inline)
        &&& committed_ok(lfs, file, in_use)
        &&& (file.flags == file0.flags || file.flags == (file0.flags | w))
    }
    &&& has_flag(file0.flags, LfsOpenFlags::Inline) && !has_flag(file.flags, LfsOpenFlags::Inline) ==> {
        &&& file.flags == (file0.flags | w) & !LfsOpenFlags::Inline.spec_bits()
        &&& has_flag(file.flags, LfsOpenFlags::Writing)
    }
}

/// What a write that failed part way leaves: the filesystem usable, the
/// blocks in `in_use` kept, and the file marked as erred.
pub open spec fn write_failed<D: BlockDevice>(
    lfs: Lfs<D>,
    file: LfsFile,
    in_use: Seq<LfsBlock>,
    lfs0: Lfs<D>,
    file0: LfsFile,
) -> bool {
    &&& lfs.caches_ok()
    &&& lfs.pcache.block == LFS_BLOCK_NULL
    &&& same_but_io(lfs, lfs0)
    &&& lookahead_ok(lfs.lookahead, lfs.cfg.lookahead_size, lfs.block_count)
    &&& marks_all(lfs.lookahead, lfs.block_count, in_use)
    &&& lfs.bd.blocks().len() == lfs0.bd.blocks().len()
    &&& crate::ctz::same_in_use(lfs.bd.blocks(), lfs0.bd.blocks(), in_use)
    &&& file.id == file0.id
    &&& file.type_ == file0.type_
    &&& file.m == file0.m
    &&& file.ctz == file0.ctz
    &&& has_flag(file.flags, LfsOpenFlags::Erred)
}

/// No block of a list of blocks of the device is the null block.
pub proof fn lemma_no_null(used: Seq<LfsBlock>, in_use: Seq<LfsBlock>, bc: u32)
    requires
        bc < 0xffff_ffff,
        forall|i: int| 0 <= i < used.len() ==> #[trigger] used[i] < bc,
        used.len() >= in_use.len(),
        forall|i: int| 0 <= i < in_use.len() ==> #[trigger] used[i] == in_use[i],
    ensures
        !in_use.contains(0xffff_ffffu32),
{
    if in_use.contains(0xffff_ffffu32) {
        let k = choose|k: int| 0 <= k < in_use.len() && in_use[k] == 0xffff_ffffu32;
        assert(used[k] == in_use[k]);
    }
}

/// A window that marks every block of `used`, which begins with `in_use`,
/// marks every block of `in_use`.
pub proof fn lemma_in_use_marked(la: crate::defines::LfsLookahead, bc: u32, used: Seq<LfsBlock>, in_use: Seq<LfsBlock>)
    requires
        marks_all(la, bc, used),
        used.len() >= in_use.len(),
        forall|i: int| 0 <= i < in_use.len() ==> #[trigger] used[i] == in_use[i],
    ensures
        marks_all(la, bc, in_use),
{
    assert forall|i: int| 0 <= i < in_use.len() implies used.contains(#[trigger] in_use[i]) by {
        assert(used[i] == in_use[i]);
    }
    lemma_marks_subset(la, bc, used, in_use);
}

/// The blocks of `in_use` hold in `a` what they hold in `c` when every
/// block of `used`, which begins with `in_use`, but `except`, which is not
/// in `in_use`, holds in `a` what it holds in `b`, and `b` keeps `in_use`
/// from `c`.
pub proof fn lemma_in_use_same(
    used: Seq<LfsBlock>,
    in_use: Seq<LfsBlock>,
    a: Seq<Seq<u8>>,
    b: Seq<Seq<u8>>,
    c: Seq<Seq<u8>>,
    except: u32,
)
    requires
        used.len() >= in_use.len(),
        forall|i: int| 0 <= i < in_use.len() ==> #[trigger] used[i] == in_use[i],
        !in_use.contains(except),
        forall|j: int| 0 <= j < used.len() && used[j] != except ==> #[trigger] a[used[j] as int] == b[used[j] as int],
        crate::ctz::same_in_use(b, c, in_use),
    ensures
        crate::ctz::same_in_use(a, c, in_use),
{
    assert forall|j: int| 0 <= j < in_use.len() implies #[trigger] a[in_use[j] as int] == c[in_use[j] as int] by {
        assert(used[j] == in_use[j]);
        assert(in_use.contains(in_use[j]));
    }
}

/// A write part way through is ready to write more: the file is writing,
/// at its position when inline, with room left in its block otherwise.
pub open spec fn write_ready<D: BlockDevice>(lfs: Lfs<D>, file: LfsFile) -> bool {
    &&& has_flag(file.flags, LfsOpenFlags::Writing)
    &&& has_flag(file.flags, LfsOpenFlags::Inline) ==> file.off == file.pos
    &&& !has_flag(file.flags, LfsOpenFlags::Inline) ==> file.off < lfs.cfg.block_size
}

/// Gives the file a block to write to when it needs one: a fresh block of
/// its own when it was not being written or its block is full; its
/// position, for an inline file.
#[verifier::rlimit(100)]
#[verifier::spinoff_prover]
fn lfs_file_write_ready<D: BlockDevice>(
    lfs: &mut Lfs<D>,
    used: &mut Vec<LfsBlock>,
    file: &mut LfsFile,
    in_use: &[LfsBlock],
    Ghost(data): Ghost<Seq<u8>>,
    Ghost(done): Ghost<int>,
    Ghost(lfs0): Ghost<Lfs<D>>,
    Ghost(file0): Ghost<LfsFile>,
) -> (r: Result<(), LfsError>)
    requires
        write_progress(*old(lfs), *old(file), old(used)@, in_use@, lfs0, file0, data, done),
        done < data.len(),
    ensures
        r is Ok ==> write_progress(*final(lfs), *final(file), final(used)@, in_use@, lfs0, file0, data, done)
            && write_ready(*final(lfs), *final(file)),
        r is Err ==> write_failed(*final(lfs), *final(file), in_use@, lfs0, file0),
        final(lfs).bd.reads_ok() == old(lfs).bd.reads_ok(),
        final(lfs).bd.writes_ok() == old(lfs).bd.writes_ok(),
        has_flag(old(file).flags, LfsOpenFlags::Inline) ==> r is Ok,
        old(lfs).bd.reads_ok() && old(lfs).bd.writes_ok() && r is Err ==> r == Err::<(), LfsError>(LfsError::NoSpc),
        r is Ok ==> has_flag(final(file).flags, LfsOpenFlags::Inline) == has_flag(old(file).flags, LfsOpenFlags::Inline),
        old(lfs).bd.reads_ok() && old(lfs).bd.writes_ok() && r is Err ==> final(lfs).lookahead.ckpoint == 0,
{
    proof {
        reveal(write_progress);
    }
    let ghost bs = lfs0.cfg.block_size;
    let ghost w = LfsOpenFlags::Writing.spec_bits();
    let bsz = lfs.cfg.block_size;
    if file.flags & LfsOpenFlags::Writing.bits() == 0 || file.off == bsz {
        if file.flags & LfsOpenFlags::Inline.bits() == 0 {
            let ghost lb = *lfs;
            let ghost fb = *file;
            let ghost ub = used@;
            let rb = lfs_file_write_block(lfs, used, file);
            if let Err(e) = rb {
                file.flags = set_erred(file.flags);
                proof {
                    lemma_in_use_marked(lfs.lookahead, lfs.block_count, used@, in_use@);
                    lemma_no_null(ub, in_use@, lb.block_count);
                    lemma_in_use_same(ub, in_use@, lfs.bd.blocks(), lb.bd.blocks(), lfs0.bd.blocks(), 0xffff_ffff);
                }
                return Err(e);
            }
            proof {
                lemma_or_twice(file0.flags, w);
                lemma_or_present((file0.flags | w) & !LfsOpenFlags::Inline.spec_bits());
                assert(!in_use@.contains(file.block)) by {
                    if in_use@.contains(file.block) {
                        let k = choose|k: int| 0 <= k < in_use@.len() && in_use@[k] == file.block;
                        assert(ub[k] == file.block);
                    }
                }
                lemma_in_use_marked(lfs.lookahead, lfs.block_count, used@, in_use@);
                lemma_no_null(ub, in_use@, lb.block_count);
                lemma_in_use_same(ub, in_use@, lfs.bd.blocks(), lb.bd.blocks(), lfs0.bd.blocks(), 0xffff_ffff);
                if !has_flag(file0.flags, LfsOpenFlags::Inline) {
                    lemma_committed_kept(lb, fb, *lfs, *file, in_use@);
                }
                assert forall|p: u32| p < file.pos implies #[trigger] open_byte(*lfs, *file, p) == write_want(lfs0, file0, data, p) by {
                    assert(open_byte(lb, fb, p) == write_want(lfs0, file0, data, p));
                }
            }
        } else {
            let ghost fi = *file;
            file.block = LFS_BLOCK_INLINE;
            file.off = file.pos;
            file.flags = set_writing(file.flags);
            proof {
                lemma_or_twice(file0.flags, w);
                assert forall|p: u32| p < file.pos implies #[trigger] open_byte(*lfs, *file, p) == write_want(lfs0, file0, data, p) by {
                    assert(open_byte(*lfs, fi, p) == write_want(lfs0, file0, data, p));
                }
            }
        }
    }
    proof {
        reveal(write_progress);
    }
    Ok(())
}

/// A write part way through, ready, into a file's own list, meets what
/// writing the next chunk needs.
pub proof fn lemma_more_pre<D: BlockDevice>(
    lfs: Lfs<D>,
    file: LfsFile,
    used: Seq<LfsBlock>,
    in_use: Seq<LfsBlock>,
    lfs0: Lfs<D>,
    file0: LfsFile,
    data: Seq<u8>,
    done: int,
)
    requires
        write_progress(lfs, file, used, in_use, lfs0, file0, data, done),
        write_ready(lfs, file),
        !has_flag(file.flags, LfsOpenFlags::Inline),
        done < data.len(),
    ensures
        file.pos + (data.len() - done) <= u32::MAX,
        lfs.cfg.block_size == lfs0.cfg.block_size,
        lfs.caches_ok(),
        lfs.cfg.block_size >= 128,
        lfs.pcache.block == LFS_BLOCK_NULL,
        lookahead_ok(lfs.lookahead, lfs.cfg.lookahead_size, lfs.block_count),
        0 < lfs.cfg.lookahead_size <= 0x1000_0000,
        forall|i: int| 0 <= i < used.len() ==> #[trigger] used[i] < lfs.block_count,
        marks_all(lfs.lookahead, lfs.block_count, used),
        has_flag(file.flags, LfsOpenFlags::Writing),
        file.id < 0x3ff,
        writing_ok(lfs, file),
        file.off < lfs.cfg.block_size,
        list_in(used, overlay(lfs.bd.blocks(), file.cache), file.block, write_last(lfs.cfg.block_size, file.pos, file.off)),
{
    reveal(write_progress);
}

/// After writing the next chunk of a write into a file's own list, the
/// write is that many bytes further on.
#[verifier::rlimit(100)]
pub proof fn lemma_more_post<D: BlockDevice>(
    lc: Lfs<D>,
    fc: LfsFile,
    uc: Seq<LfsBlock>,
    lw: Lfs<D>,
    lfs: Lfs<D>,
    file: LfsFile,
    used: Seq<LfsBlock>,
    in_use: Seq<LfsBlock>,
    lfs0: Lfs<D>,
    file0: LfsFile,
    data: Seq<u8>,
    done: int,
    chunk: Seq<u8>,
)
    requires
        write_progress(lc, fc, uc, in_use, lfs0, file0, data, done),
        write_ready(lc, fc),
        !has_flag(fc.flags, LfsOpenFlags::Inline),
        done < data.len(),
        chunk.len() > 0,
        done + chunk.len() <= data.len(),
        chunk == data.subrange(done, done + chunk.len()),
        lw.caches_ok(),
        lw.pcache.block == LFS_BLOCK_NULL,
        same_but_io(lw, lc),
        lookahead_ok(lw.lookahead, lw.cfg.lookahead_size, lw.block_count),
        lw.bd.blocks().len() == lc.bd.blocks().len(),
        used.len() >= uc.len(),
        forall|i: int| 0 <= i < uc.len() ==> #[trigger] used[i] == uc[i],
        forall|i: int| 0 <= i < used.len() ==> #[trigger] used[i] < lc.block_count,
        marks_all(lw.lookahead, lw.block_count, used),
        forall|j: int|
            0 <= j < uc.len() && uc[j] != fc.block ==> #[trigger] lw.bd.blocks()[uc[j] as int] == lc.bd.blocks()[uc[j] as int],
        file.id == fc.id,
        file.type_ == fc.type_,
        file.m == fc.m,
        file.ctz == fc.ctz,
        has_flag(file.flags, LfsOpenFlags::Writing),
        !has_flag(file.flags, LfsOpenFlags::Inline),
        file.flags == fc.flags || file.flags == (fc.flags | LfsOpenFlags::Writing.spec_bits()),
        file.pos == fc.pos + chunk.len(),
        file.off == fc.off + chunk.len(),
        writing_ok(lw, file),
        list_in(used, overlay(lw.bd.blocks(), file.cache), file.block, write_last(lc.cfg.block_size, file.pos, file.off)),
        file.block == fc.block || !uc.contains(file.block),
        forall|p: u32| p < fc.pos ==> #[trigger] open_byte(lw, file, p) == open_byte(lc, fc, p),
        forall|j: int| 0 <= j < chunk.len() ==> #[trigger] open_byte(lw, file, (fc.pos + j) as u32) == chunk[j],
        lfs.lookahead.ckpoint == lw.block_count,
        lfs.lookahead.start == lw.lookahead.start,
        lfs.lookahead.size == lw.lookahead.size,
        lfs.lookahead.next == lw.lookahead.next,
        lfs.lookahead.buffer == lw.lookahead.buffer,
        crate::allocator::same_but_lookahead(lfs, lw),
    ensures
        write_progress(lfs, file, used, in_use, lfs0, file0, data, done + chunk.len()),
{
    reveal(write_progress);
    let w = LfsOpenFlags::Writing.spec_bits();
    lemma_or_twice(file0.flags, w);
    lemma_or_present((file0.flags | w) & !LfsOpenFlags::Inline.spec_bits());
    lemma_in_use_marked(lfs.lookahead, lfs.block_count, used, in_use);
    lemma_in_use_same(uc, in_use, lfs.bd.blocks(), lc.bd.blocks(), lfs0.bd.blocks(), fc.block);
    assert(!in_use.contains(file.block)) by {
        if in_use.contains(file.block) {
            let k = choose|k: int| 0 <= k < in_use.len() && in_use[k] == file.block;
            assert(uc[k] == file.block);
        }
    }
    if !has_flag(file0.flags, LfsOpenFlags::Inline) {
        lemma_committed_kept(lc, fc, lfs, file, in_use);
    }
    lemma_more_bytes(lc, fc, lw, lfs, file, lfs0, file0, data, done, chunk);
}

/// The bytes of a write after its next chunk: as they were before the
/// chunk's position, the chunk's bytes after it.
pub proof fn lemma_more_bytes<D: BlockDevice>(
    lc: Lfs<D>,
    fc: LfsFile,
    lw: Lfs<D>,
    lfs: Lfs<D>,
    file: LfsFile,
    lfs0: Lfs<D>,
    file0: LfsFile,
    data: Seq<u8>,
    done: int,
    chunk: Seq<u8>,
)
    requires
        forall|p: u32| p < fc.pos ==> #[trigger] open_byte(lc, fc, p) == write_want(lfs0, file0, data, p),
        fc.pos == file0.pos + done,
        0 <= done,
        done + chunk.len() <= data.len(),
        chunk == data.subrange(done, done + chunk.len()),
        forall|p: u32| p < fc.pos ==> #[trigger] open_byte(lw, file, p) == open_byte(lc, fc, p),
        forall|j: int| 0 <= j < chunk.len() ==> #[trigger] open_byte(lw, file, (fc.pos + j) as u32) == chunk[j],
        lfs.cfg == lw.cfg,
        lfs.bd == lw.bd,
        file.pos == fc.pos + chunk.len(),
    ensures
        forall|p: u32| p < file.pos ==> #[trigger] open_byte(lfs, file, p) == write_want(lfs0, file0, data, p),
{
    assert forall|p: u32| p < file.pos implies #[trigger] open_byte(lfs, file, p) == write_want(lfs0, file0, data, p) by {
        assert(open_byte(lw, file, p) == open_byte(lfs, file, p));
        if p >= fc.pos {
            let j = p - fc.pos;
            assert((fc.pos + j) as u32 == p);
            assert(open_byte(lw, file, (fc.pos + j) as u32) == chunk[j]);
            assert(chunk[j] == data[done + j]);
            assert(write_want(lfs0, file0, data, p) == data[p - file0.pos]);
        } else {
            assert(open_byte(lw, file, p) == open_byte(lc, fc, p));
        }
    }
}

/// Writes as much of the rest of `data` as fits the file's block, and
/// moves on past it.
#[verifier::rlimit(100)]
#[verifier::spinoff_prover]
fn lfs_file_write_more<D: BlockDevice>(
    lfs: &mut Lfs<D>,
    used: &mut Vec<LfsBlock>,
    file: &mut LfsFile,
    in_use: &[LfsBlock],
    data: &[u8],
    done: usize,
    Ghost(lfs0): Ghost<Lfs<D>>,
    Ghost(file0): Ghost<LfsFile>,
) -> (r: Result<usize, LfsError>)
    requires
        write_progress(*old(lfs), *old(file), old(used)@, in_use@, lfs0, file0, data@, done as int),
        write_ready(*old(lfs), *old(file)),
        !has_flag(old(file).flags, LfsOpenFlags::Inline),
        done < data@.len(),
    ensures
        r is Ok ==> write_settled(lfs0.cfg.block_size, final(file).pos, final(file).off),
        r matches Ok(d) ==> done < d <= data@.len() && write_progress(
            *final(lfs),
            *final(file),
            final(used)@,
            in_use@,
            lfs0,
            file0,
            data@,
            d as int,
        ),
        r is Err ==> write_failed(*final(lfs), *final(file), in_use@, lfs0, file0),
        final(lfs).bd.reads_ok() == old(lfs).bd.reads_ok(),
        final(lfs).bd.writes_ok() == old(lfs).bd.writes_ok(),
        old(lfs).bd.reads_ok() && old(lfs).bd.writes_ok() ==> r is Ok,
{
    let ghost lc = *lfs;
    let ghost fc = *file;
    let ghost uc = used@;
    proof {
        lemma_more_pre(lc, fc, uc, in_use@, lfs0, file0, data@, done as int);
    }
    let bsz = lfs.cfg.block_size;
    let room = bsz - file.off;
    let rem = (data.len() - done) as u32;
    let diff = if rem < room { rem } else { room };
    let chunk = vstd::slice::slice_subrange(data, done, done + diff as usize);
    let rc = lfs_file_write_chunk(lfs, used, file, chunk);
    if let Err(e) = rc {
        file.flags = set_erred(file.flags);
        proof {
            reveal(write_progress);
            lemma_in_use_marked(lfs.lookahead, lfs.block_count, used@, in_use@);
            lemma_in_use_same(uc, in_use@, lfs.bd.blocks(), lc.bd.blocks(), lfs0.bd.blocks(), fc.block);
        }
        return Err(e);
    }
    let ghost lw = *lfs;
    lfs_alloc_ckpoint(lfs);
    proof {
        lemma_more_post(lc, fc, uc, lw, *lfs, *file, used@, in_use@, lfs0, file0, data@, done as int, chunk@);
    }
    Ok(done + diff as usize)
}

/// Writes as much of the rest of `data` as fits into an inline file's
/// cache, and moves on past it.
#[verifier::rlimit(100)]
#[verifier::spinoff_prover]
fn lfs_file_write_inline_more<D: BlockDevice>(
    lfs: &mut Lfs<D>,
    used: &mut Vec<LfsBlock>,
    file: &mut LfsFile,
    in_use: &[LfsBlock],
    data: &[u8],
    done: usize,
    Ghost(lfs0): Ghost<Lfs<D>>,
    Ghost(file0): Ghost<LfsFile>,
) -> (r: Result<usize, LfsError>)
    requires
        write_progress(*old(lfs), *old(file), old(used)@, in_use@, lfs0, file0, data@, done as int),
        write_ready(*old(lfs), *old(file)),
        has_flag(old(file).flags, LfsOpenFlags::Inline),
        done < data@.len(),
    ensures
        final(file).flags == old(file).flags,
        r matches Ok(d) ==> done < d <= data@.len() && write_progress(
            *final(lfs),
            *final(file),
            final(used)@,
            in_use@,
            lfs0,
            file0,
            data@,
            d as int,
        ),
        r is Err ==> write_failed(*final(lfs), *final(file), in_use@, lfs0, file0),
        final(lfs).bd.reads_ok() == old(lfs).bd.reads_ok(),
        final(lfs).bd.writes_ok() == old(lfs).bd.writes_ok(),
        r is Ok,
{
    proof {
        reveal(write_progress);
    }
    let bsz = lfs.cfg.block_size;
    let bc = lfs.block_count;
    let room = bsz - file.off;
    let rem = (data.len() - done) as u32;
    let diff = if rem < room { rem } else { room };
    let chunk = vstd::slice::slice_subrange(data, done, done + diff as usize);
    let ghost lc = *lfs;
    let ghost fc = *file;
    let res = lfs_bd_prog(&lfs.cfg, &mut lfs.bd, bc, &mut file.cache, &mut lfs.rcache, true, LFS_BLOCK_INLINE, file.off, chunk);
    if let Err(e) = res {
        file.flags = set_erred(file.flags);
        return Err(e);
    }
    file.pos = file.pos + diff;
    file.off = file.off + diff;
    lfs_alloc_ckpoint(lfs);
    proof {
        reveal(write_progress);
        assert(file.flags == fc.flags);
        assert(has_flag(file.flags, LfsOpenFlags::Inline));
        assert forall|p: u32| p < file.pos implies #[trigger] open_byte(*lfs, *file, p) == write_want(lfs0, file0, data@, p) by {
            if p < fc.pos {
                assert(open_byte(lc, fc, p) == write_want(lfs0, file0, data@, p));
            } else {
                assert(file.cache.buffer@[p as int] == chunk@[p - fc.pos]);
            }
        }
    }
    Ok(done + diff as usize)
}

/// What writing `len` bytes at a file's position needs: usable caches and
/// allocator, `in_use` (the blocks the rest of the filesystem holds)
/// marked, room for the bytes in a word, and the file in a state it can be
/// written from: an inline file with its data in its cache, writing only at
/// its position; a file being written to a list of its own, marked, with
/// its block not in `in_use`; or a file not being written, whose position
/// is within its committed list. The committed list of a file that is not
/// inline is well formed and in `in_use`.
#[verifier::opaque]
pub open spec fn write_start_ok<D: BlockDevice>(lfs: Lfs<D>, file: LfsFile, in_use: Seq<LfsBlock>, len: nat) -> bool {
    let bs = lfs.cfg.block_size;
    &&& lfs.caches_ok()
    &&& bs >= 128
    &&& lfs.pcache.block == LFS_BLOCK_NULL
    &&& lookahead_ok(lfs.lookahead, lfs.cfg.lookahead_size, lfs.block_count)
    &&& 0 < lfs.cfg.lookahead_size <= 0x1000_0000
    &&& forall|i: int| 0 <= i < in_use.len() ==> #[trigger] in_use[i] < lfs.block_count
    &&& marks_all(lfs.lookahead, lfs.block_count, in_use)
    &&& file.id < 0x3ff
    &&& file.pos + len <= u32::MAX
    &&& has_flag(file.flags, LfsOpenFlags::Inline) ==> {
        &&& inline_write_ok(lfs, file)
        &&& has_flag(file.flags, LfsOpenFlags::Writing) ==> file.off == file.pos
        &&& file.m.pair[0] < lfs.block_count
        &&& in_use.contains(file.m.pair[0])
    }
    &&& !has_flag(file.flags, LfsOpenFlags::Inline) ==> {
        &&& file.cache.size <= lfs.cfg.cache_size
        &&& committed_ok(lfs, file, in_use)
        &&& has_flag(file.flags, LfsOpenFlags::Writing) ==> {
            &&& writing_ok(lfs, file)
            &&& marks_all(
                lfs.lookahead,
                lfs.block_count,
                list_blocks(overlay(lfs.bd.blocks(), file.cache), file.block, write_last(bs, file.pos, file.off)),
            )
            &&& !in_use.contains(file.block)
        }
        &&& !has_flag(file.flags, LfsOpenFlags::Writing) ==> {
            &&& rcache_ok(lfs.cfg, lfs.bd.blocks(), file.cache)
            &&& file.pos <= file.ctz.size
        }
    }
}

/// What a finished write of `data` at the position of `file0` leaves: the
/// filesystem usable, the blocks in `in_use` kept and marked, the file
/// past `data`, writing once anything was written, reading as before
/// before its old position and as `data` after it, and ready to be written
/// again. A file that was not inline keeps its committed list, which still
/// reads as before past the new position; an inline file that stays inline
/// keeps the rest of its cache; one that moved out to a block is writing.
pub open spec fn write_done<D: BlockDevice>(
    lfs: Lfs<D>,
    file: LfsFile,
    in_use: Seq<LfsBlock>,
    lfs0: Lfs<D>,
    file0: LfsFile,
    data: Seq<u8>,
) -> bool {
    let bs = lfs0.cfg.block_size;
    let w = LfsOpenFlags::Writing.spec_bits();
    let n = data.len();
    &&& lfs.caches_ok()
    &&& lfs.pcache.block == LFS_BLOCK_NULL
    &&& same_but_io(lfs, lfs0)
    &&& lookahead_ok(lfs.lookahead, lfs.cfg.lookahead_size, lfs.block_count)
    &&& marks_all(lfs.lookahead, lfs.block_count, in_use)
    &&& lfs.bd.blocks().len() == lfs0.bd.blocks().len()
    &&& crate::ctz::same_in_use(lfs.bd.blocks(), lfs0.bd.blocks(), in_use)
    &&& file.id == file0.id
    &&& file.type_ == file0.type_
    &&& file.m == file0.m
    &&& file.ctz == file0.ctz
    &&& file.pos == file0.pos + n
    &&& n > 0 ==> has_flag(file.flags, LfsOpenFlags::Writing)
    &&& forall|p: u32| p < file0.pos ==> #[trigger] open_byte(lfs, file, p) == open_byte(lfs0, file0, p)
    &&& forall|j: int| 0 <= j < n ==> #[trigger] open_byte(lfs, file, (file0.pos + j) as u32) == data[j]
    &&& !has_flag(file0.flags, LfsOpenFlags::Inline) ==> {
        &&& !has_flag(file.flags, LfsOpenFlags::Inline)
        &&& file.flags == file0.flags || file.flags == (file0.flags | w)
        &&& committed_ok(lfs, file, in_use)
        &&& forall|p: u32|
            file.pos <= p < file0.ctz.size ==> #[trigger] open_byte(lfs, file, p) == open_byte(lfs0, file0, p)
    }
    &&& has_flag(file0.flags, LfsOpenFlags::Inline) ==> {
        ||| file.flags == file0.flags
        ||| file.flags == (file0.flags | w)
        ||| file.flags == (file0.flags | w) & !LfsOpenFlags::Inline.spec_bits()
    }
    &&& has_flag(file.flags, LfsOpenFlags::Inline) ==> {
        &&& inline_write_ok(lfs, file)
        &&& forall|k: int|
            0 <= k < lfs.cfg.cache_size && (k < file0.pos || k >= file.pos) ==> #[trigger] file.cache.buffer@[k]
                == file0.cache.buffer@[k]
    }
    &&& !has_flag(file.flags, LfsOpenFlags::Inline) && has_flag(file.flags, LfsOpenFlags::Writing) ==> {
        &&& writing_ok(lfs, file)
        &&& marks_all(
            lfs.lookahead,
            lfs.block_count,
            list_blocks(overlay(lfs.bd.blocks(), file.cache), file.block, write_last(bs, file.pos, file.off)),
        )
        &&& !in_use.contains(file.block)
        &&& n > 0 ==> write_settled(bs, file.pos, file.off)
    }
}

/// Writing nothing leaves the file as the outline step, if any, left it.
pub proof fn lemma_write_nothing<D: BlockDevice>(
    lfs0: Lfs<D>,
    file0: LfsFile,
    lfs1: Lfs<D>,
    file1: LfsFile,
    in_use: Seq<LfsBlock>,
    data: Seq<u8>,
)
    requires
        write_start_ok(lfs0, file0, in_use, data.len()),
        data.len() == 0,
        (lfs1 == lfs0 && file1 == file0) || outlined_state(lfs1, file1, in_use, lfs0, file0),
        !has_flag(file0.flags, LfsOpenFlags::Inline) ==> (lfs1 == lfs0 && file1 == file0),
    ensures
        write_done(lfs1, file1, in_use, lfs0, file0, data),
{
    reveal(write_start_ok);
    if lfs1 == lfs0 && file1 == file0 {
        if !has_flag(file0.flags, LfsOpenFlags::Inline) {
            lemma_committed_kept(lfs0, file0, lfs1, file1, in_use);
        }
    } else {
        lemma_marks_split(lfs1.lookahead, lfs1.block_count, in_use, file1.block);
    }
}

/// The state after moving an inline file out to a block of its own, for
/// writing at least one byte.
pub open spec fn outlined_state<D: BlockDevice>(
    lfs1: Lfs<D>,
    file1: LfsFile,
    in_use: Seq<LfsBlock>,
    lfs0: Lfs<D>,
    file0: LfsFile,
) -> bool {
    &&& lfs1.caches_ok()
    &&& lfs1.pcache.block == LFS_BLOCK_NULL
    &&& same_but_io(lfs1, lfs0)
    &&& lookahead_ok(lfs1.lookahead, lfs1.cfg.lookahead_size, lfs1.block_count)
    &&& marks_all(lfs1.lookahead, lfs1.block_count, in_use.push(file1.block))
    &&& lfs1.bd.blocks().len() == lfs0.bd.blocks().len()
    &&& crate::ctz::same_in_use(lfs1.bd.blocks(), lfs0.bd.blocks(), in_use)
    &&& file1.id == file0.id
    &&& file1.type_ == file0.type_
    &&& file1.m == file0.m
    &&& file1.ctz == file0.ctz
    &&& file1.pos == file0.pos
    &&& !in_use.contains(file1.block)
    &&& file1.flags == (file0.flags | LfsOpenFlags::Writing.spec_bits()) & !LfsOpenFlags::Inline.spec_bits()
    &&& has_flag(file1.flags, LfsOpenFlags::Writing)
    &&& !has_flag(file1.flags, LfsOpenFlags::Inline)
    &&& writing_ok(lfs1, file1)
    &&& write_last(lfs1.cfg.block_size, file1.pos, file1.off) == 0
    &&& list_blocks(overlay(lfs1.bd.blocks(), file1.cache), file1.block, 0) == seq![file1.block]
    &&& forall|p: u32| p < file0.pos ==> #[trigger] open_byte(lfs1, file1, p) == open_byte(lfs0, file0, p)
}

/// A write of at least one byte starts in progress: after the outline
/// step, if any, and once `used` holds `in_use` and the blocks of the list
/// the file is writing.
#[verifier::rlimit(100)]
pub proof fn lemma_write_begins<D: BlockDevice>(
    lfs0: Lfs<D>,
    file0: LfsFile,
    lfs1: Lfs<D>,
    file1: LfsFile,
    lfs2: Lfs<D>,
    file2: LfsFile,
    used: Seq<LfsBlock>,
    in_use: Seq<LfsBlock>,
    data: Seq<u8>,
)
    requires
        write_start_ok(lfs0, file0, in_use, data.len()),
        data.len() > 0,
        (lfs1 == lfs0 && file1 == file0) || outlined_state(lfs1, file1, in_use, lfs0, file0),
        !has_flag(file0.flags, LfsOpenFlags::Inline) ==> (lfs1 == lfs0 && file1 == file0),
        has_flag(file0.flags, LfsOpenFlags::Inline) && lfs1 == lfs0 && file1 == file0 ==> file0.pos + data.len()
            <= lfs0.inline_max,
        file2 == file1,
        lfs2.cfg == lfs1.cfg,
        lfs2.bd == lfs1.bd,
        lfs2.pcache == lfs1.pcache,
        lfs2.lookahead == lfs1.lookahead,
        same_but_io(lfs2, lfs1),
        rcache_ok(lfs2.cfg, lfs2.bd.blocks(), lfs2.rcache),
        has_flag(file1.flags, LfsOpenFlags::Writing) && !has_flag(file1.flags, LfsOpenFlags::Inline) ==> {
            &&& used.len() >= in_use.len()
            &&& forall|i: int| 0 <= i < in_use.len() ==> #[trigger] used[i] == in_use[i]
            &&& forall|i: int| 0 <= i < used.len() ==> #[trigger] used[i] < lfs1.block_count
            &&& marks_all(lfs1.lookahead, lfs1.block_count, used)
            &&& list_in(
                used,
                overlay(lfs1.bd.blocks(), file1.cache),
                file1.block,
                write_last(lfs1.cfg.block_size, file1.pos, file1.off),
            )
        },
        !(has_flag(file1.flags, LfsOpenFlags::Writing) && !has_flag(file1.flags, LfsOpenFlags::Inline)) ==> used
            == in_use,
    ensures
        write_progress(lfs2, file2, used, in_use, lfs0, file0, data, 0),
{
    reveal(write_start_ok);
    reveal(write_progress);
    let w = LfsOpenFlags::Writing.spec_bits();
    assert forall|p: u32| p < file2.pos implies #[trigger] open_byte(lfs2, file2, p) == write_want(lfs0, file0, data, p) by {
        assert(open_byte(lfs2, file2, p) == open_byte(lfs1, file1, p));
    }
    if !(lfs1 == lfs0 && file1 == file0) {
        lemma_marks_split(lfs1.lookahead, lfs1.block_count, in_use, file1.block);
    }
    if !has_flag(file0.flags, LfsOpenFlags::Inline) {
        lemma_committed_kept(lfs0, file0, lfs2, file2, in_use);
        if !has_flag(file0.flags, LfsOpenFlags::Writing) {
            assert(used == in_use);
        }
    }
}

/// A write whose every byte is done leaves what a finished write leaves.
#[verifier::rlimit(100)]
pub proof fn lemma_write_finished<D: BlockDevice>(
    lfs: Lfs<D>,
    file: LfsFile,
    used: Seq<LfsBlock>,
    in_use: Seq<LfsBlock>,
    lfs0: Lfs<D>,
    file0: LfsFile,
    data: Seq<u8>,
)
    requires
        write_progress(lfs, file, used, in_use, lfs0, file0, data, data.len() as int),
        !has_flag(file0.flags, LfsOpenFlags::Inline) ==> committed_ok(lfs0, file0, in_use),
        data.len() > 0 && !has_flag(file.flags, LfsOpenFlags::Inline) ==> write_settled(lfs0.cfg.block_size, file.pos, file.off),
    ensures
        write_done(lfs, file, in_use, lfs0, file0, data),
{
    reveal(write_progress);
    let bs = lfs0.cfg.block_size;
    assert forall|j: int| 0 <= j < data.len() implies #[trigger] open_byte(lfs, file, (file0.pos + j) as u32) == data[j] by {
        assert(open_byte(lfs, file, (file0.pos + j) as u32) == write_want(lfs0, file0, data, (file0.pos + j) as u32));
    }
    assert forall|p: u32| p < file0.pos implies #[trigger] open_byte(lfs, file, p) == open_byte(lfs0, file0, p) by {
        assert(open_byte(lfs, file, p) == write_want(lfs0, file0, data, p));
    }
    if !has_flag(file0.flags, LfsOpenFlags::Inline) {
        lemma_committed_kept(lfs0, file0, lfs, file, in_use);
    }
    if has_flag(file.flags, LfsOpenFlags::Inline) {
        assert forall|k: int| 0 <= k < lfs.cfg.cache_size && (k < file0.pos || k >= file.pos) implies #[trigger] file.cache.buffer@[k]
            == file0.cache.buffer@[k] by {
            if k < file0.pos {
                assert(open_byte(lfs, file, k as u32) == write_want(lfs0, file0, data, k as u32));
            }
        }
    }
    if !has_flag(file.flags, LfsOpenFlags::Inline) && has_flag(file.flags, LfsOpenFlags::Writing) {
        let li = write_last(bs, file.pos, file.off);
        let v = overlay(lfs.bd.blocks(), file.cache);
        assert forall|i: int| 0 <= i < list_blocks(v, file.block, li).len() implies used.contains(#[trigger] list_blocks(v, file.block, li)[i]) by {}
        lemma_marks_subset(lfs.lookahead, lfs.block_count, used, list_blocks(v, file.block, li));
    }
}

/// Writes `data` at the file's position: into its inline data while the
/// file stays small enough, moving it out to a block of its own first when
/// it would not; else into its own skip-list, a block at a time, giving the
/// file a fresh block when it was not being written or its block is full,
/// and replacing a block the device finds bad. New blocks are taken from
/// those neither in `in_use` nor in the file's list. Every byte before the
/// position reads as before, `data` follows it, the committed list is
/// kept, and the position moves past `data`, whose length is returned. On
/// failure the file is marked as erred.
#[verifier::rlimit(100)]
#[verifier::spinoff_prover]
pub fn lfs_file_flushedwrite<D: BlockDevice>(
    lfs: &mut Lfs<D>,
    in_use: &[LfsBlock],
    file: &mut LfsFile,
    data: &[u8],
) -> (r: Result<LfsSize, LfsError>)
    requires
        write_start_ok(*old(lfs), *old(file), in_use@, data@.len()),
    ensures
        r is Err ==> write_failed(*final(lfs), *final(file), in_use@, *old(lfs), *old(file)),
        r matches Ok(n) ==> n == data@.len() && write_done(*final(lfs), *final(file), in_use@, *old(lfs), *old(file), data@),
        final(lfs).bd.reads_ok() == old(lfs).bd.reads_ok(),
        final(lfs).bd.writes_ok() == old(lfs).bd.writes_ok(),
        has_flag(old(file).flags, LfsOpenFlags::Inline) && (if old(file).pos + data@.len() > old(file).ctz.size {
            old(file).pos + data@.len()
        } else {
            old(file).ctz.size as int
        }) <= old(lfs).inline_max ==> r is Ok,
        old(lfs).bd.reads_ok() && old(lfs).bd.writes_ok() && (!has_flag(old(file).flags, LfsOpenFlags::Inline) || (if old(
            file,
        ).pos + data@.len() > old(file).ctz.size {
            old(file).pos + data@.len()
        } else {
            old(file).ctz.size as int
        }) <= old(lfs).inline_max) ==> r is Ok || r == Err::<LfsSize, LfsError>(LfsError::NoSpc),
        old(lfs).bd.reads_ok() && old(lfs).bd.writes_ok() ==> r is Ok || (r == Err::<LfsSize, LfsError>(
            LfsError::NoSpc,
        ) && final(lfs).lookahead.ckpoint == 0),
{
    let ghost lfs0 = *lfs;
    let ghost file0 = *file;
    let size = data.len() as u32;
    let bsz = lfs.cfg.block_size;
    let bc = lfs.block_count;
    proof {
        reveal(write_start_ok);
    }
    if file.flags & LfsOpenFlags::Inline.bits() != 0 && lfs_max(file.pos + size, file.ctz.size) > lfs.inline_max {
        let rr = lfs_file_outline(lfs, in_use, file);
        if let Err(e) = rr {
            file.flags = set_erred(file.flags);
            return Err(e);
        }
        proof {
            lemma_outlined(lfs0, file0, *lfs, *file);
            lemma_marks_taken(lfs.lookahead, lfs.block_count, in_use@, file.block);
        }
    }
    let ghost lfs1 = *lfs;
    let ghost file1 = *file;
    if size == 0 {
        proof {
            lemma_write_nothing(lfs0, file0, lfs1, file1, in_use@, data@);
        }
        return Ok(0);
    }
    let mut used = copy_blocks(in_use);
    if file.flags & LfsOpenFlags::Writing.bits() != 0 && file.flags & LfsOpenFlags::Inline.bits() == 0 {
        let tsize = if file.off == bsz { file.pos } else { file.pos + 1 };
        proof {
            let li = write_last(lfs0.cfg.block_size, file.pos, file.off);
            let v = overlay(lfs.bd.blocks(), file.cache);
            let lb = list_blocks(v, file.block, li);
            assert(ctz_index_spec(lfs0.cfg.block_size, (tsize - 1) as u32).0 == li);
            assert(lb[li as int] == file.block);
            assert(crate::bd::logical(lfs.bd.blocks(), Some(&file.cache)) == v);
            assert(ctz_chain_ok(v, lb, li as int) && lb[li as int] == file.block);
        }
        let tr = lfs_index_traverse(&lfs.cfg, &lfs.bd, bc, Some(&file.cache), &mut lfs.rcache, file.block, tsize);
        let trav = match tr {
            Ok(t) => t,
            Err(e) => {
                file.flags = set_erred(file.flags);
                return Err(e);
            },
        };
        proof {
            let li = write_last(lfs0.cfg.block_size, file.pos, file.off);
            let v = overlay(lfs.bd.blocks(), file.cache);
            assert(ctz_index_spec(lfs0.cfg.block_size, (tsize - 1) as u32).0 == li);
            if has_flag(file0.flags, LfsOpenFlags::Inline) {
                assert(list_blocks(v, file.block, li) == seq![file.block]);
                lemma_marks_split(lfs.lookahead, lfs.block_count, in_use@, file.block);
            }
            lemma_used_start(lfs.lookahead, lfs.block_count, in_use@, v, file.block, li, trav@);
        }
        push_blocks(&mut used, &trav);
        proof {
            assert(used@ == in_use@ + trav@);
            assert forall|i: int| 0 <= i < used@.len() implies #[trigger] used@[i] < bc by {
                if i >= in_use@.len() {
                    assert(used@[i] == trav@[i - in_use@.len()]);
                }
            }
        }
    }
    proof {
        lemma_write_begins(lfs0, file0, lfs1, file1, *lfs, *file, used@, in_use@, data@);
    }
    let mut done: usize = 0;
    while done < data.len()
        invariant
            write_progress(*lfs, *file, used@, in_use@, lfs0, file0, data@, done as int),
            done <= data@.len(),
            done > 0 && !has_flag(file.flags, LfsOpenFlags::Inline) ==> write_settled(
                lfs0.cfg.block_size,
                file.pos,
                file.off,
            ),
            lfs0 == *old(lfs),
            file0 == *old(file),
            size == data@.len(),
            lfs.bd.reads_ok() == lfs0.bd.reads_ok(),
            lfs.bd.writes_ok() == lfs0.bd.writes_ok(),
            has_flag(file0.flags, LfsOpenFlags::Inline) && (if file0.pos + data@.len() > file0.ctz.size {
                file0.pos + data@.len()
            } else {
                file0.ctz.size as int
            }) <= lfs0.inline_max ==> has_flag(file.flags, LfsOpenFlags::Inline),
        decreases data@.len() - done,
    {
        let ready = lfs_file_write_ready(lfs, &mut used, file, in_use, Ghost(data@), Ghost(done as int), Ghost(lfs0), Ghost(file0));
        if let Err(e) = ready {
            return Err(e);
        }
        let step = if file.flags & LfsOpenFlags::Inline.bits() == 0 {
            lfs_file_write_more(lfs, &mut used, file, in_use, data, done, Ghost(lfs0), Ghost(file0))
        } else {
            lfs_file_write_inline_more(lfs, &mut used, file, in_use, data, done, Ghost(lfs0), Ghost(file0))
        };
        match step {
            Ok(d) => {
                done = d;
            },
            Err(e) => {
                return Err(e);
            },
        }
    }
    proof {
        lemma_write_finished(*lfs, *file, used@, in_use@, lfs0, file0, data@);
    }
    Ok(size)
}

/// Writes out the pending bytes the cache of a file being written holds
/// of its block, checking what reaches the device. When the device finds
/// the block bad, the file moves to a new block (one not in `used`, which
/// is then added to it) and the write-out is tried again there. The file's
/// list then lives on the device alone, holding the same bytes before its
/// position. A failed write-out drops the read cache.
#[verifier::rlimit(100)]
#[verifier::spinoff_prover]
pub(crate) fn lfs_file_flush_out<D: BlockDevice>(
    lfs: &mut Lfs<D>,
    used: &mut Vec<LfsBlock>,
    file: &mut LfsFile,
) -> (r: Result<(), LfsError>)
    requires
        old(lfs).caches_ok(),
        old(lfs).cfg.block_size >= 128,
        old(lfs).pcache.block == LFS_BLOCK_NULL,
        lookahead_ok(old(lfs).lookahead, old(lfs).cfg.lookahead_size, old(lfs).block_count),
        0 < old(lfs).cfg.lookahead_size <= 0x1000_0000,
        forall|i: int| 0 <= i < old(used)@.len() ==> #[trigger] old(used)@[i] < old(lfs).block_count,
        marks_all(old(lfs).lookahead, old(lfs).block_count, old(used)@),
        !has_flag(old(file).flags, LfsOpenFlags::Inline),
        has_flag(old(file).flags, LfsOpenFlags::Writing),
        old(file).id < 0x3ff,
        old(file).pos > 0,
        writing_ok(*old(lfs), *old(file)),
        write_settled(old(lfs).cfg.block_size, old(file).pos, old(file).off),
        list_in(
            old(used)@,
            overlay(old(lfs).bd.blocks(), old(file).cache),
            old(file).block,
            write_last(old(lfs).cfg.block_size, old(file).pos, old(file).off),
        ),
    ensures
        final(lfs).caches_ok(),
        final(lfs).pcache.block == LFS_BLOCK_NULL,
        same_but_io(*final(lfs), *old(lfs)),
        lookahead_ok(final(lfs).lookahead, final(lfs).cfg.lookahead_size, final(lfs).block_count),
        final(lfs).bd.blocks().len() == old(lfs).bd.blocks().len(),
        final(used)@.len() >= old(used)@.len(),
        forall|i: int| 0 <= i < old(used)@.len() ==> #[trigger] final(used)@[i] == old(used)@[i],
        forall|i: int| 0 <= i < final(used)@.len() ==> #[trigger] final(used)@[i] < old(lfs).block_count,
        marks_all(final(lfs).lookahead, final(lfs).block_count, final(used)@),
        forall|j: int|
            0 <= j < old(used)@.len() && old(used)@[j] != old(file).block ==> #[trigger] final(lfs).bd.blocks()[old(
                used,
            )@[j] as int] == old(lfs).bd.blocks()[old(used)@[j] as int],
        final(file).id == old(file).id,
        final(file).type_ == old(file).type_,
        final(file).m == old(file).m,
        final(file).ctz == old(file).ctz,
        final(file).pos == old(file).pos,
        final(file).off == old(file).off,
        has_flag(final(file).flags, LfsOpenFlags::Writing),
        !has_flag(final(file).flags, LfsOpenFlags::Inline),
        final(file).flags == old(file).flags || final(file).flags == (old(file).flags
            | LfsOpenFlags::Writing.spec_bits()),
        final(file).block == old(file).block || !old(used)@.contains(final(file).block),
        r is Ok ==> {
            let bs = old(lfs).cfg.block_size;
            let li = ctz_index_spec(bs, (old(file).pos - 1) as u32).0;
            &&& final(file).cache.block == LFS_BLOCK_NULL
            &&& pcache_ok(final(lfs).cfg, final(lfs).bd.blocks(), final(file).cache)
            &&& final(file).block < final(lfs).block_count
            &&& list_ok(final(lfs).bd.blocks(), final(file).block, li)
            &&& list_in(final(used)@, final(lfs).bd.blocks(), final(file).block, li)
            &&& forall|p: u32| p < old(file).pos ==> #[trigger] list_byte(final(lfs).bd.blocks(), bs, final(file).block, li, p)
                == open_byte(*old(lfs), *old(file), p)
        },
        final(lfs).bd.reads_ok() == old(lfs).bd.reads_ok(),
        final(lfs).bd.writes_ok() == old(lfs).bd.writes_ok(),
        old(lfs).bd.reads_ok() && old(lfs).bd.writes_ok() ==> r is Ok,
{
    let ghost lfs0 = *lfs;
    let ghost file0 = *file;
    let ghost used0 = used@;
    let ghost b0 = lfs.bd.blocks();
    let ghost bs = lfs.cfg.block_size;
    let ghost li = write_last(bs, file.pos, file.off);
    let ghost v0 = overlay(b0, file.cache);
    let ghost c0 = list_blocks(v0, file.block, li);
    let ghost want = |p: u32| open_byte(lfs0, file0, p);
    proof {
        lemma_ctz_index_layout(bs, (file.pos - 1) as u32);
        if file.off < bs {
            lemma_ctz_index_layout(bs, file.pos);
        }
        assert(c0[li as int] == file.block);
        assert(c0.update(li as int, file0.block) =~= c0);
        assert forall|p: u32| p < file0.pos implies #[trigger] want(p) == v0[c0[ctz_index_spec(
            bs,
            p,
        ).0 as int] as int][ctz_index_spec(bs, p).1 as int] by {
            if p < file0.pos - 1 {
                lemma_before_pos(bs, p, (file0.pos - 1) as u32);
            }
            lemma_list_byte(v0, bs, c0, li, p);
        }
        reveal(chain_holds);
    }
    loop
        invariant
            lfs.caches_ok(),
            lfs.cfg.block_size >= 128,
            lfs.pcache.block == LFS_BLOCK_NULL,
            lfs.bd.reads_ok() == old(lfs).bd.reads_ok(),
            lfs.bd.writes_ok() == old(lfs).bd.writes_ok(),
            same_but_io(*lfs, lfs0),
            lfs0 == *old(lfs),
            file0 == *old(file),
            used0 == old(used)@,
            b0 == lfs0.bd.blocks(),
            bs == lfs.cfg.block_size,
            want == (|p: u32| open_byte(lfs0, file0, p)),
            lookahead_ok(lfs.lookahead, lfs.cfg.lookahead_size, lfs.block_count),
            0 < lfs.cfg.lookahead_size <= 0x1000_0000,
            lfs.bd.blocks().len() == b0.len(),
            used@.len() >= used0.len(),
            forall|i: int| 0 <= i < used0.len() ==> #[trigger] used@[i] == used0[i],
            forall|i: int| 0 <= i < used@.len() ==> #[trigger] used@[i] < lfs.block_count,
            marks_all(lfs.lookahead, lfs.block_count, used@),
            forall|j: int|
                0 <= j < used0.len() && used0[j] != file0.block ==> #[trigger] lfs.bd.blocks()[used0[j] as int]
                    == b0[used0[j] as int],
            file.id == file0.id,
            file.type_ == file0.type_,
            file.m == file0.m,
            file.ctz == file0.ctz,
            file.pos == file0.pos,
            file.off == file0.off,
            has_flag(file.flags, LfsOpenFlags::Writing),
            !has_flag(file.flags, LfsOpenFlags::Inline),
            file.flags == file0.flags || file.flags == (file0.flags | LfsOpenFlags::Writing.spec_bits()),
            file.block == file0.block || !used0.contains(file.block),
            file.id < 0x3ff,
            file.block < lfs.block_count,
            file.pos > 0,
            li == write_last(bs, file0.pos, file0.off),
            li == ctz_index_spec(bs, (file0.pos - 1) as u32).0,
            li < 0x400_0000,
            c0.len() == li + 1,
            file.off <= bs,
            file.off < bs ==> ctz_index_spec(bs, file.pos) == (li, file.off),
            file.off < bs ==> ctz_ptr_bytes(li as nat) <= file.off,
            file.off == bs ==> file.cache.block == LFS_BLOCK_NULL,
            pcache_ok(lfs.cfg, lfs.bd.blocks(), file.cache),
            file.cache.block == LFS_BLOCK_NULL || (file.cache.block == file.block && file.cache.off + file.cache.size
                == file.off),
            chain_holds(*lfs, *file, used@, c0, li, want, file0.pos),
        decreases lfs.lookahead.ckpoint,
    {
        let ghost lb = *lfs;
        let ghost fb = *file;
        let ghost vb = overlay(lb.bd.blocks(), fb.cache);
        let ghost cb = c0.update(li as int, fb.block);
        let bc = lfs.block_count;
        proof {
            lemma_overlay_index(lb.cfg, lb.bd.blocks(), fb.cache, fb.block as int, 0);
            assert(cb[li as int] == fb.block);
        }
        let res = lfs_bd_flush(&lfs.cfg, &mut lfs.bd, bc, &mut file.cache, &mut lfs.rcache, true);
        match res {
            Ok(()) => {
                proof {
                    reveal(chain_holds);
                    let bn = lfs.bd.blocks();
                    assert forall|j: int| 0 <= j < li implies #[trigger] bn[cb[j] as int] == vb[cb[j] as int] by {
                        assert(cb[j] != cb[li as int]);
                    }
                    assert forall|k: int| 0 <= k < fb.off implies #[trigger] bn[fb.block as int][k] == vb[fb.block as int][k] by {
                        if fb.cache.block == fb.block {
                            crate::bd::lemma_flushed_keeps(lb.cfg, lb.bd.blocks(), fb.cache, k);
                        }
                    }
                    lemma_overlay_index(lfs.cfg, bn, file.cache, fb.block as int, 0);
                    if fb.off < bs {
                        lemma_before_pos(bs, (fb.pos - 1) as u32, fb.pos);
                    } else {
                        lemma_ctz_index_next(bs, (fb.pos - 1) as u32);
                    }
                    lemma_flush_keeps_list(vb, bn, cb, li, fb.block, bs, fb.pos, fb.off, want);
                    assert forall|j: int| 0 <= j < used0.len() && used0[j] != file0.block implies #[trigger] lfs.bd.blocks()[used0[j] as int]
                        == b0[used0[j] as int] by {
                        assert(used0.contains(used0[j]));
                        assert(used@[j] == used0[j]);
                        assert(used0[j] != fb.block);
                        assert(lfs.bd.blocks()[used0[j] as int] == lb.bd.blocks()[used0[j] as int]);
                    }
                    assert forall|j: int| 0 <= j <= li implies used@.contains(#[trigger] list_blocks(bn, fb.block, li)[j]) by {
                        assert(list_blocks(bn, fb.block, li)[j] == cb[j]);
                    }
                }
                return Ok(());
            },
            Err(LfsError::Corrupt) => {
                proof {
                    reveal(chain_holds);
                    assert forall|j: int| 0 <= j < used0.len() && used0[j] != file0.block implies #[trigger] lfs.bd.blocks()[used0[j] as int]
                        == b0[used0[j] as int] by {
                        assert(used0.contains(used0[j]));
                        assert(used@[j] == used0[j]);
                        assert(used0[j] != fb.block);
                        assert(lfs.bd.blocks()[used0[j] as int] == lb.bd.blocks()[used0[j] as int]);
                    }
                    lemma_ctz_index_layout(bs, fb.pos);
                }
                let ghost lf = *lfs;
                let ghost uf = used@;
                let mv = lfs_file_write_move(lfs, used, file, Ghost(c0), Ghost(li), Ghost(want), Ghost(vb));
                proof {
                    lemma_or_twice(file0.flags, LfsOpenFlags::Writing.spec_bits());
                    assert forall|j: int| 0 <= j < used0.len() && used0[j] != file0.block implies #[trigger] lfs.bd.blocks()[used0[j] as int]
                        == b0[used0[j] as int] by {
                        assert(uf[j] == used0[j]);
                        assert(lfs.bd.blocks()[uf[j] as int] == lf.bd.blocks()[uf[j] as int]);
                    }
                    if mv is Ok {
                        assert(!used0.contains(file.block)) by {
                            if used0.contains(file.block) {
                                let w = choose|w: int| 0 <= w < used0.len() && used0[w] == file.block;
                                assert(uf[w] == file.block);
                            }
                        }
                    }
                }
                if let Err(e) = mv {
                    return Err(e);
                }
            },
            Err(e) => {
                lfs_cache_drop(&mut lfs.rcache);
                proof {
                    assert forall|j: int| 0 <= j < used0.len() && used0[j] != file0.block implies #[trigger] lfs.bd.blocks()[used0[j] as int]
                        == b0[used0[j] as int] by {
                        assert(used0.contains(used0[j]));
                        assert(used@[j] == used0[j]);
                        assert(used0[j] != fb.block);
                        assert(lfs.bd.blocks()[used0[j] as int] == lb.bd.blocks()[used0[j] as int]);
                    }
                }
                return Err(e);
            },
        }
    }
}

} // verus!
