//! The block allocator: a lookahead bitmap over a window of blocks, filled
//! from the blocks in use and consumed in order.
use vstd::prelude::*;
use crate::bd::BlockDevice;
use crate::defines::{LfsBlock, LfsError, LfsLookahead};
use crate::fs::Lfs;

verus! {

/// Bit `s` of `x`.
pub open spec fn bit_of(x: u8, s: u8) -> bool {
    (x >> s) & 1u8 == 1u8
}

/// Whether the block at offset `k` of the window is marked in use.
pub open spec fn la_marked(buf: Seq<u8>, k: int) -> bool {
    bit_of(buf[k / 8], (k % 8) as u8)
}

/// The offset of `block` in a window starting at `start` on a device of `bc` blocks.
pub open spec fn la_off(start: u32, bc: u32, block: u32) -> int {
    (block - start) % (bc as int)
}

/// Every block of `in_use` that falls in the part of the window not yet
/// looked at is marked.
pub open spec fn marks_all(la: LfsLookahead, bc: u32, in_use: Seq<LfsBlock>) -> bool {
    forall|i: int|
        0 <= i < in_use.len() && in_use[i] < bc && la.next <= la_off(la.start, bc, in_use[i]) < la.size
            ==> #[trigger] la_marked(la.buffer@, la_off(la.start, bc, in_use[i]))
}

/// The first unmarked offset of the window at or after `i`, or `size`.
pub open spec fn first_clear(buf: Seq<u8>, i: int, size: int) -> int
    decreases size - i,
{
    if i >= size {
        size
    } else if !la_marked(buf, i) {
        i
    } else {
        first_clear(buf, i + 1, size)
    }
}

/// The window is consistent: its bitmap covers it, its cursor lies in it,
/// and the blocks left to look at fit in the checkpoint.
pub open spec fn lookahead_ok(la: LfsLookahead, lookahead_size: u32, bc: u32) -> bool {
    &&& la.buffer@.len() == lookahead_size
    &&& la.size <= 8 * lookahead_size
    &&& la.next <= la.size
    &&& la.size - la.next <= la.ckpoint
    &&& la.ckpoint <= bc
    &&& la.size <= bc
    &&& la.start < bc
    &&& bc > 0
}

/// Stepping `o` blocks from `s` around a device of `m` blocks lands at offset `o` from `s`.
pub proof fn lemma_wrap_off(s: int, o: int, m: int)
    requires
        0 <= s < m,
        0 <= o < m,
    ensures
        0 <= (s + o) % m < m,
        ((s + o) % m - s) % m == o,
{
    if s + o < m {
        vstd::arithmetic::div_mod::lemma_fundamental_div_mod_converse_mod(s + o, m, 0, s + o);
        vstd::arithmetic::div_mod::lemma_fundamental_div_mod_converse_mod(o, m, 0, o);
    } else {
        vstd::arithmetic::div_mod::lemma_fundamental_div_mod_converse_mod(s + o, m, 1, s + o - m);
        vstd::arithmetic::div_mod::lemma_fundamental_div_mod_converse_mod(o - m, m, -1, o);
    }
}

/// Every part of the filesystem but the allocator's window is the same.
pub open spec fn same_but_lookahead<D: BlockDevice>(a: Lfs<D>, b: Lfs<D>) -> bool {
    &&& a.cfg == b.cfg
    &&& a.bd == b.bd
    &&& a.rcache == b.rcache
    &&& a.pcache == b.pcache
    &&& a.root == b.root
    &&& a.mlist == b.mlist
    &&& a.seed == b.seed
    &&& a.gstate == b.gstate
    &&& a.gdisk == b.gdisk
    &&& a.gdelta == b.gdelta
    &&& a.block_count == b.block_count
    &&& a.name_max == b.name_max
    &&& a.file_max == b.file_max
    &&& a.attr_max == b.attr_max
    &&& a.inline_max == b.inline_max
}

/// Whether offset `off` of the window is marked.
fn la_is_marked(buf: &Vec<u8>, off: u32) -> (r: bool)
    requires
        (off / 8) < buf@.len(),
    ensures
        r == la_marked(buf@, off as int),
{
    let x = buf[(off / 8) as usize];
    let s = (off % 8) as u8;
    assert(((x & (1u8 << s)) != 0) == bit_of(x, s)) by (bit_vector)
        requires
            s < 8,
    ;
    (x & (1u8 << s)) != 0
}

/// Marks the window's offset `off`, leaving every other offset as it was.
fn la_mark(buf: &mut Vec<u8>, off: u32)
    requires
        (off / 8) < old(buf)@.len(),
    ensures
        final(buf)@.len() == old(buf)@.len(),
        la_marked(final(buf)@, off as int),
        forall|k: int|
            0 <= k < 8 * old(buf)@.len() && k != off ==> #[trigger] la_marked(final(buf)@, k)
                == la_marked(old(buf)@, k),
{
    let i = (off / 8) as usize;
    let s = (off % 8) as u8;
    let x = buf[i];
    let y = x | (1u8 << s);
    buf.set(i, y);
    proof {
        assert(bit_of(y, s)) by (bit_vector)
            requires
                y == x | (1u8 << s),
                s < 8,
        ;
        assert forall|k: int| 0 <= k < 8 * old(buf)@.len() && k != off implies #[trigger] la_marked(
            buf@,
            k,
        ) == la_marked(old(buf)@, k) by {
            if k / 8 == i {
                let t = (k % 8) as u8;
                assert(t != s);
                assert(bit_of(y, t) == bit_of(x, t)) by (bit_vector)
                    requires
                        y == x | (1u8 << s),
                        s < 8,
                        t < 8,
                        t != s,
                ;
            }
        }
    }
}

/// Resets the checkpoint: all blocks may be looked at again before giving up.
pub fn lfs_alloc_ckpoint<D: BlockDevice>(lfs: &mut Lfs<D>)
    ensures
        final(lfs).lookahead.ckpoint == old(lfs).block_count,
        final(lfs).lookahead.start == old(lfs).lookahead.start,
        final(lfs).lookahead.size == old(lfs).lookahead.size,
        final(lfs).lookahead.next == old(lfs).lookahead.next,
        final(lfs).lookahead.buffer == old(lfs).lookahead.buffer,
        same_but_lookahead(*final(lfs), *old(lfs)),
{
    lfs.lookahead.ckpoint = lfs.block_count;
}

/// Empties the window, so the next allocation scans afresh.
pub fn lfs_alloc_drop<D: BlockDevice>(lfs: &mut Lfs<D>)
    ensures
        final(lfs).lookahead.size == 0,
        final(lfs).lookahead.next == 0,
        final(lfs).lookahead.ckpoint == old(lfs).block_count,
        final(lfs).lookahead.start == old(lfs).lookahead.start,
        final(lfs).lookahead.buffer == old(lfs).lookahead.buffer,
        same_but_lookahead(*final(lfs), *old(lfs)),
{
    lfs.lookahead.size = 0;
    lfs.lookahead.next = 0;
    lfs_alloc_ckpoint(lfs);
}

/// Marks `block` in use when it falls in the window.
pub fn lfs_alloc_lookahead<D: BlockDevice>(lfs: &mut Lfs<D>, block: LfsBlock) -> (r: i32)
    requires
        lookahead_ok(old(lfs).lookahead, old(lfs).cfg.lookahead_size, old(lfs).block_count),
        block < old(lfs).block_count,
    ensures
        r == 0,
        lookahead_ok(final(lfs).lookahead, final(lfs).cfg.lookahead_size, final(lfs).block_count),
        same_but_lookahead(*final(lfs), *old(lfs)),
        final(lfs).lookahead.start == old(lfs).lookahead.start,
        final(lfs).lookahead.size == old(lfs).lookahead.size,
        final(lfs).lookahead.next == old(lfs).lookahead.next,
        final(lfs).lookahead.ckpoint == old(lfs).lookahead.ckpoint,
        final(lfs).lookahead.buffer@.len() == old(lfs).lookahead.buffer@.len(),
        ({
            let off = la_off(old(lfs).lookahead.start, old(lfs).block_count, block);
            &&& off < old(lfs).lookahead.size ==> la_marked(final(lfs).lookahead.buffer@, off)
            &&& forall|k: int|
                0 <= k < old(lfs).lookahead.size && k != off ==> #[trigger] la_marked(
                    final(lfs).lookahead.buffer@,
                    k,
                ) == la_marked(old(lfs).lookahead.buffer@, k)
        }),
{
    let bc = lfs.block_count;
    let off: u32 = ((block as u64 + bc as u64 - lfs.lookahead.start as u64) % (bc as u64)) as u32;
    proof {
        assert(off == la_off(lfs.lookahead.start, bc, block)) by (nonlinear_arith)
            requires
                off == (block + bc - lfs.lookahead.start) % (bc as int),
                bc > 0,
        ;
    }
    if off < lfs.lookahead.size {
        la_mark(&mut lfs.lookahead.buffer, off);
    }
    0
}


/// Whether some block of `in_use` sits at offset `k` of the window.
pub open spec fn in_use_at(start: u32, bc: u32, in_use: Seq<LfsBlock>, k: int) -> bool {
    exists|i: int| 0 <= i < in_use.len() && la_off(start, bc, #[trigger] in_use[i]) == k
}

/// Moves the window to the first block not yet looked at and fills its
/// bitmap from `in_use`, the blocks a traversal of the filesystem reports.
pub fn lfs_alloc_scan<D: BlockDevice>(lfs: &mut Lfs<D>, in_use: &[LfsBlock]) -> (r: i32)
    requires
        lookahead_ok(old(lfs).lookahead, old(lfs).cfg.lookahead_size, old(lfs).block_count),
        old(lfs).cfg.lookahead_size <= 0x1000_0000,
        forall|i: int| 0 <= i < in_use@.len() ==> #[trigger] in_use@[i] < old(lfs).block_count,
    ensures
        r == 0,
        lookahead_ok(final(lfs).lookahead, final(lfs).cfg.lookahead_size, final(lfs).block_count),
        same_but_lookahead(*final(lfs), *old(lfs)),
        final(lfs).lookahead.start == (old(lfs).lookahead.start + old(lfs).lookahead.next) % (
        old(lfs).block_count as int),
        final(lfs).lookahead.next == 0,
        final(lfs).lookahead.size == (if 8 * old(lfs).cfg.lookahead_size
            < old(lfs).lookahead.ckpoint {
            8 * old(lfs).cfg.lookahead_size
        } else {
            old(lfs).lookahead.ckpoint as int
        }),
        final(lfs).lookahead.ckpoint == old(lfs).lookahead.ckpoint,
        marks_all(final(lfs).lookahead, final(lfs).block_count, in_use@),
        forall|k: int|
            0 <= k < final(lfs).lookahead.size ==> (#[trigger] la_marked(
                final(lfs).lookahead.buffer@,
                k,
            ) <==> in_use_at(final(lfs).lookahead.start, final(lfs).block_count, in_use@, k)),
{
    let bc = lfs.block_count;
    lfs.lookahead.start = ((lfs.lookahead.start as u64 + lfs.lookahead.next as u64) % (bc as u64)) as u32;
    lfs.lookahead.next = 0;
    let win: u64 = 8 * (lfs.cfg.lookahead_size as u64);
    lfs.lookahead.size = if win < lfs.lookahead.ckpoint as u64 {
        win as u32
    } else {
        lfs.lookahead.ckpoint
    };
    let n = lfs.lookahead.buffer.len();
    let ghost la1 = lfs.lookahead;
    let mut i: usize = 0;
    while i < n
        invariant
            i <= n,
            n == lfs.lookahead.buffer@.len(),
            n == lfs.cfg.lookahead_size,
            lfs.lookahead.start == la1.start,
            lfs.lookahead.size == la1.size,
            lfs.lookahead.next == la1.next,
            lfs.lookahead.ckpoint == la1.ckpoint,
            la1.size <= 8 * n,
            same_but_lookahead(*lfs, *old(lfs)),
            forall|k: int| 0 <= k < i ==> #[trigger] lfs.lookahead.buffer@[k] == 0u8,
        decreases n - i,
    {
        lfs.lookahead.buffer.set(i, 0);
        i = i + 1;
    }
    proof {
        assert forall|k: int| 0 <= k < lfs.lookahead.size implies !#[trigger] la_marked(
            lfs.lookahead.buffer@,
            k,
        ) by {
            let x = lfs.lookahead.buffer@[k / 8];
            let t = (k % 8) as u8;
            assert(x == 0u8);
            assert(!bit_of(0u8, t)) by (bit_vector);
        }
    }
    let ghost la0 = lfs.lookahead;
    let mut j: usize = 0;
    while j < in_use.len()
        invariant
            j <= in_use@.len(),
            lookahead_ok(lfs.lookahead, lfs.cfg.lookahead_size, lfs.block_count),
            bc == lfs.block_count,
            lfs.lookahead.start == la0.start,
            lfs.lookahead.size == la0.size,
            lfs.lookahead.next == la0.next,
            lfs.lookahead.ckpoint == la0.ckpoint,
            same_but_lookahead(*lfs, *old(lfs)),
            forall|i: int| 0 <= i < in_use@.len() ==> #[trigger] in_use@[i] < bc,
            forall|k: int|
                0 <= k < lfs.lookahead.size ==> (#[trigger] la_marked(lfs.lookahead.buffer@, k)
                    <==> in_use_at(lfs.lookahead.start, bc, in_use@.subrange(0, j as int), k)),
        decreases in_use@.len() - j,
    {
        let b = in_use[j];
        lfs_alloc_lookahead(lfs, b);
        proof {
            let sub = in_use@.subrange(0, j + 1);
            let prev = in_use@.subrange(0, j as int);
            assert forall|k: int| 0 <= k < lfs.lookahead.size implies (#[trigger] la_marked(
                lfs.lookahead.buffer@,
                k,
            ) <==> in_use_at(lfs.lookahead.start, bc, sub, k)) by {
                if in_use_at(lfs.lookahead.start, bc, prev, k) {
                    let w = choose|w: int| 0 <= w < prev.len() && la_off(lfs.lookahead.start, bc, #[trigger] prev[w]) == k;
                    assert(sub[w] == prev[w]);
                }
                if in_use_at(lfs.lookahead.start, bc, sub, k) {
                    let w = choose|w: int| 0 <= w < sub.len() && la_off(lfs.lookahead.start, bc, #[trigger] sub[w]) == k;
                    if w < j {
                        assert(prev[w] == sub[w]);
                    }
                }
                if la_off(lfs.lookahead.start, bc, b) == k {
                    assert(sub[j as int] == b);
                }
            }
        }
        j = j + 1;
    }
    proof {
        assert(in_use@.subrange(0, in_use@.len() as int) =~= in_use@);
        assert forall|i: int|
            0 <= i < in_use@.len() && in_use@[i] < bc && la_off(lfs.lookahead.start, bc, in_use@[i])
                < lfs.lookahead.size implies #[trigger] la_marked(
            lfs.lookahead.buffer@,
            la_off(lfs.lookahead.start, bc, in_use@[i]),
        ) by {
            assert(in_use_at(lfs.lookahead.start, bc, in_use@, la_off(lfs.lookahead.start, bc, in_use@[i])));
        }
    }
    0
}

/// A block at an unmarked offset of a window that marks every block in
/// use is not in use.
pub proof fn lemma_unmarked_not_in_use(la: LfsLookahead, bc: u32, in_use: Seq<LfsBlock>, b: LfsBlock)
    requires
        marks_all(la, bc, in_use),
        b < bc,
        bc > 0,
        la.start < bc,
        la.next <= la_off(la.start, bc, b) < la.size,
        !la_marked(la.buffer@, la_off(la.start, bc, b)),
    ensures
        !in_use.contains(b),
{
    if in_use.contains(b) {
        let i = choose|i: int| 0 <= i < in_use.len() && in_use[i] == b;
        assert(la_marked(la.buffer@, la_off(la.start, bc, in_use[i])));
    }
}

/// A block the window has already gone past is never handed out again
/// before the next scan, so it counts as marked.
pub proof fn lemma_marks_taken(la: LfsLookahead, bc: u32, in_use: Seq<LfsBlock>, b: LfsBlock)
    requires
        marks_all(la, bc, in_use),
        la_off(la.start, bc, b) < la.next,
    ensures
        marks_all(la, bc, in_use.push(b)),
{
    assert forall|i: int|
        0 <= i < in_use.push(b).len() && in_use.push(b)[i] < bc && la.next <= la_off(la.start, bc, in_use.push(b)[i])
            < la.size implies #[trigger] la_marked(la.buffer@, la_off(la.start, bc, in_use.push(b)[i])) by {
        if i < in_use.len() {
            assert(in_use.push(b)[i] == in_use[i]);
        }
    }
}

/// A window that marks every block of `a` marks every block of any `b`
/// whose blocks all occur in `a`.
pub proof fn lemma_marks_subset(la: LfsLookahead, bc: u32, a: Seq<LfsBlock>, b: Seq<LfsBlock>)
    requires
        marks_all(la, bc, a),
        forall|i: int| 0 <= i < b.len() ==> a.contains(#[trigger] b[i]),
    ensures
        marks_all(la, bc, b),
{
    assert forall|i: int|
        0 <= i < b.len() && b[i] < bc && la.next <= la_off(la.start, bc, b[i]) < la.size implies #[trigger] la_marked(
        la.buffer@,
        la_off(la.start, bc, b[i]),
    ) by {
        assert(a.contains(b[i]));
        let j = choose|j: int| 0 <= j < a.len() && a[j] == b[i];
        assert(la_marked(la.buffer@, la_off(la.start, bc, a[j])));
    }
}

/// Whether the block `t` steps past the allocator's cursor is free: within
/// the window, its offset is unmarked; past the window, where the
/// allocator has not looked yet, it is not in `in_use`.
pub open spec fn free_ahead(la: LfsLookahead, bc: u32, in_use: Seq<LfsBlock>, t: int) -> bool {
    if t < la.size - la.next {
        !la_marked(la.buffer@, la.next + t)
    } else {
        !in_use_at(la.start, bc, in_use, (la.next + t) % (bc as int))
    }
}

/// Step `t` past the cursor is the first one at which a free block lies,
/// among the steps the checkpoint still allows.
pub open spec fn first_free_at(la: LfsLookahead, bc: u32, in_use: Seq<LfsBlock>, t: int) -> bool {
    &&& 0 <= t < la.ckpoint
    &&& free_ahead(la, bc, in_use, t)
    &&& forall|u: int| 0 <= u < t ==> !#[trigger] free_ahead(la, bc, in_use, u)
}

/// Offsets in a window that starts `d` blocks further on are offsets
/// moved by `d` in the old one.
pub proof fn lemma_la_off_shift(s0: u32, s1: u32, bc: u32, d: int, x: u32, k: int)
    requires
        bc > 0,
        s0 < bc,
        s1 < bc,
        d >= 0,
        0 <= k < bc,
        s1 == (s0 + d) % (bc as int),
    ensures
        (la_off(s1, bc, x) == k) <==> (la_off(s0, bc, x) == (d + k) % (bc as int)),
{
    let m = bc as int;
    vstd::arithmetic::div_mod::lemma_fundamental_div_mod(s0 + d, m);
    vstd::arithmetic::div_mod::lemma_fundamental_div_mod(x - s1, m);
    vstd::arithmetic::div_mod::lemma_fundamental_div_mod(x - s0, m);
    vstd::arithmetic::div_mod::lemma_fundamental_div_mod(d + k, m);
    let q = (s0 + d) / m;
    assert(x - s1 == (x - s0) - (d + k) + k + q * m) by (nonlinear_arith)
        requires
            s1 == s0 + d - q * m;
    if la_off(s1, bc, x) == k {
        // x - s0 == (d + k) + multiple of m
        let a = (x - s1) / m;
        assert((x - s1) % m == k);
        assert(x - s1 == m * a + k);
        assert(x - s0 == m * (a - q) + (d + k)) by (nonlinear_arith)
            requires
                x - s1 == m * a + k,
                x - s1 == (x - s0) - (d + k) + k + q * m;
        vstd::arithmetic::div_mod::lemma_mod_multiples_vanish(a - q, d + k, m);
    }
    if la_off(s0, bc, x) == (d + k) % m {
        let a = (x - s0) / m;
        let b = (d + k) / m;
        let r = (d + k) % m;
        assert((x - s0) % m == r);
        assert(x - s0 == m * a + r);
        assert(d + k == m * b + r);
        assert(x - s1 == m * (a - b + q) + k) by (nonlinear_arith)
            requires
                x - s0 == m * a + r,
                d + k == m * b + r,
                x - s1 == (x - s0) - (d + k) + k + q * m;
        vstd::arithmetic::div_mod::lemma_mod_multiples_vanish(a - b + q, k, m);
        vstd::arithmetic::div_mod::lemma_small_mod(k as nat, m as nat);
    }
}


/// Allocates a block: the next unmarked block of the window, scanning new
/// windows from `in_use` (the blocks a traversal reports in use) until all
/// blocks since the last checkpoint have been looked at.
#[verifier::rlimit(40)]
pub fn lfs_alloc<D: BlockDevice>(lfs: &mut Lfs<D>, in_use: &[LfsBlock]) -> (r: Result<LfsBlock, LfsError>)
    requires
        lookahead_ok(old(lfs).lookahead, old(lfs).cfg.lookahead_size, old(lfs).block_count),
        old(lfs).cfg.lookahead_size <= 0x1000_0000,
        old(lfs).cfg.lookahead_size > 0,
        forall|i: int| 0 <= i < in_use@.len() ==> #[trigger] in_use@[i] < old(lfs).block_count,
    ensures
        lookahead_ok(final(lfs).lookahead, final(lfs).cfg.lookahead_size, final(lfs).block_count),
        same_but_lookahead(*final(lfs), *old(lfs)),
        marks_all(old(lfs).lookahead, old(lfs).block_count, in_use@) ==> marks_all(
            final(lfs).lookahead,
            final(lfs).block_count,
            in_use@,
        ),
        r matches Ok(b) ==> {
            &&& b < final(lfs).block_count
            &&& la_off(final(lfs).lookahead.start, final(lfs).block_count, b) < final(lfs).lookahead.next
            &&& !la_marked(
                final(lfs).lookahead.buffer@,
                la_off(final(lfs).lookahead.start, final(lfs).block_count, b),
            )
            &&& marks_all(old(lfs).lookahead, old(lfs).block_count, in_use@) ==> !in_use@.contains(b)
        },
        r is Err ==> r == Err::<LfsBlock, LfsError>(LfsError::NoSpc) && final(lfs).lookahead.ckpoint == 0,
        r is Ok ==> final(lfs).lookahead.ckpoint < old(lfs).lookahead.ckpoint,
        ({
            let la = old(lfs).lookahead;
            let k = first_clear(la.buffer@, la.next as int, la.size as int);
            k < la.size ==> {
                &&& r == Ok::<LfsBlock, LfsError>(((la.start + k) % (old(lfs).block_count as int)) as u32)
                &&& final(lfs).lookahead.start == la.start
                &&& final(lfs).lookahead.size == la.size
                &&& final(lfs).lookahead.buffer == la.buffer
                &&& final(lfs).lookahead.next == first_clear(la.buffer@, k + 1, la.size as int)
                &&& final(lfs).lookahead.ckpoint == la.ckpoint - (final(lfs).lookahead.next - la.next)
            }
        }),
        r is Err ==> final(lfs).lookahead.next == final(lfs).lookahead.size,
        ({
            let la = old(lfs).lookahead;
            first_clear(la.buffer@, la.next as int, la.size as int) == la.size && la.ckpoint == la.size - la.next
                ==> {
                &&& r == Err::<LfsBlock, LfsError>(LfsError::NoSpc)
                &&& final(lfs).lookahead.start == la.start
                &&& final(lfs).lookahead.size == la.size
                &&& final(lfs).lookahead.buffer == la.buffer
            }
        }),
        (exists|t: int| 0 <= t < old(lfs).lookahead.ckpoint && #[trigger] free_ahead(
            old(lfs).lookahead,
            old(lfs).block_count,
            in_use@,
            t,
        )) ==> r is Ok,
        r matches Ok(b) ==> exists|t: int| #[trigger]
            first_free_at(old(lfs).lookahead, old(lfs).block_count, in_use@, t) && b == (old(lfs).lookahead.start
                + old(lfs).lookahead.next + t) % (old(lfs).block_count as int),
{
    let ghost first = true;
    let ghost la_in = lfs.lookahead;
    let bc = lfs.block_count;
    loop
        invariant
            lookahead_ok(lfs.lookahead, lfs.cfg.lookahead_size, lfs.block_count),
            lfs.cfg.lookahead_size <= 0x1000_0000,
            bc == lfs.block_count,
            bc == old(lfs).block_count,
            same_but_lookahead(*lfs, *old(lfs)),
            forall|i: int| 0 <= i < in_use@.len() ==> #[trigger] in_use@[i] < bc,
            marks_all(old(lfs).lookahead, bc, in_use@) ==> marks_all(lfs.lookahead, bc, in_use@),
            !first ==> marks_all(lfs.lookahead, bc, in_use@),
            first ==> lfs.lookahead == old(lfs).lookahead,
            la_in == old(lfs).lookahead,
            !first ==> first_clear(la_in.buffer@, la_in.next as int, la_in.size as int) == la_in.size,
            lfs.cfg.lookahead_size > 0,
            lfs.lookahead.ckpoint <= la_in.ckpoint,
            first_clear(la_in.buffer@, la_in.next as int, la_in.size as int) == la_in.size && la_in.ckpoint
                == la_in.size - la_in.next ==> first,
            forall|t: int| 0 <= t < la_in.ckpoint - lfs.lookahead.ckpoint ==> !#[trigger] free_ahead(la_in, bc, in_use@, t),
            forall|k: int|
                lfs.lookahead.next <= k < lfs.lookahead.size ==> (la_marked(lfs.lookahead.buffer@, k) <==> !free_ahead(
                    la_in,
                    bc,
                    in_use@,
                    la_in.ckpoint - lfs.lookahead.ckpoint + k - lfs.lookahead.next,
                )),
            (lfs.lookahead.start + lfs.lookahead.next) % (bc as int) == (la_in.start + la_in.next + la_in.ckpoint
                - lfs.lookahead.ckpoint) % (bc as int),
            !first ==> la_in.ckpoint - lfs.lookahead.ckpoint >= la_in.size - la_in.next,
            la_in.start < bc,
        decreases 2 * lfs.lookahead.ckpoint - (lfs.lookahead.size - lfs.lookahead.next),
    {
        let ghost entry = lfs.lookahead;
        while lfs.lookahead.next < lfs.lookahead.size
            invariant
                lookahead_ok(lfs.lookahead, lfs.cfg.lookahead_size, lfs.block_count),
                bc == lfs.block_count,
                same_but_lookahead(*lfs, *old(lfs)),
                lfs.lookahead.start == entry.start,
                lfs.lookahead.size == entry.size,
                lfs.lookahead.buffer == entry.buffer,
                entry.next <= lfs.lookahead.next,
                lfs.lookahead.ckpoint == entry.ckpoint - (lfs.lookahead.next - entry.next),
                first_clear(entry.buffer@, entry.next as int, entry.size as int) == first_clear(
                    entry.buffer@,
                    lfs.lookahead.next as int,
                    entry.size as int,
                ),
                marks_all(old(lfs).lookahead, bc, in_use@) ==> marks_all(lfs.lookahead, bc, in_use@),
                !first ==> marks_all(lfs.lookahead, bc, in_use@),
                first ==> entry == old(lfs).lookahead,
                la_in == old(lfs).lookahead,
                !first ==> first_clear(la_in.buffer@, la_in.next as int, la_in.size as int) == la_in.size,
                entry.ckpoint <= la_in.ckpoint,
                first_clear(la_in.buffer@, la_in.next as int, la_in.size as int) == la_in.size && la_in.ckpoint
                    == la_in.size - la_in.next ==> first,
            forall|t: int| 0 <= t < la_in.ckpoint - lfs.lookahead.ckpoint ==> !#[trigger] free_ahead(la_in, bc, in_use@, t),
            forall|k: int|
                lfs.lookahead.next <= k < lfs.lookahead.size ==> (la_marked(lfs.lookahead.buffer@, k) <==> !free_ahead(
                    la_in,
                    bc,
                    in_use@,
                    la_in.ckpoint - lfs.lookahead.ckpoint + k - lfs.lookahead.next,
                )),
            (lfs.lookahead.start + lfs.lookahead.next) % (bc as int) == (la_in.start + la_in.next + la_in.ckpoint
                - lfs.lookahead.ckpoint) % (bc as int),
            la_in.start < bc,
            decreases lfs.lookahead.size - lfs.lookahead.next,
        {
            let off = lfs.lookahead.next;
            let ghost la_at = lfs.lookahead;
            let ghost e0 = la_in.ckpoint - lfs.lookahead.ckpoint;
            lfs.lookahead.next = lfs.lookahead.next + 1;
            lfs.lookahead.ckpoint = lfs.lookahead.ckpoint - 1;
            if !la_is_marked(&lfs.lookahead.buffer, off) {
                proof {
                    assert(first_clear(entry.buffer@, off as int, entry.size as int) == off);
                    assert(!(first_clear(la_in.buffer@, la_in.next as int, la_in.size as int) == la_in.size
                        && la_in.ckpoint == la_in.size - la_in.next));
                }
                let b: u32 = ((lfs.lookahead.start as u64 + off as u64) % (bc as u64)) as u32;
                proof {
                    lemma_wrap_off(lfs.lookahead.start as int, off as int, bc as int);
                }
                while lfs.lookahead.next < lfs.lookahead.size && la_is_marked(
                    &lfs.lookahead.buffer,
                    lfs.lookahead.next,
                )
                    invariant
                        lookahead_ok(lfs.lookahead, lfs.cfg.lookahead_size, lfs.block_count),
                        same_but_lookahead(*lfs, *old(lfs)),
                        lfs.lookahead.start == entry.start,
                        lfs.lookahead.size == entry.size,
                        lfs.lookahead.buffer == entry.buffer,
                        off < lfs.lookahead.next,
                        entry.ckpoint <= la_in.ckpoint,
                        la_in == old(lfs).lookahead,
                        entry.next <= lfs.lookahead.next,
                        lfs.lookahead.ckpoint == entry.ckpoint - (lfs.lookahead.next - entry.next),
                        first_clear(entry.buffer@, off + 1, entry.size as int) == first_clear(
                            entry.buffer@,
                            lfs.lookahead.next as int,
                            entry.size as int,
                        ),
                    decreases lfs.lookahead.size - lfs.lookahead.next,
                {
                    lfs.lookahead.next = lfs.lookahead.next + 1;
                    lfs.lookahead.ckpoint = lfs.lookahead.ckpoint - 1;
                }
                proof {
                    if marks_all(la_at, bc, in_use@) {
                        lemma_unmarked_not_in_use(la_at, bc, in_use@, b);
                    }
                    assert(free_ahead(la_in, bc, in_use@, e0));
                    assert(first_free_at(la_in, bc, in_use@, e0));
                    assert(b == (la_in.start + la_in.next + e0) % (bc as int));
                    assert(marks_all(old(lfs).lookahead, bc, in_use@) ==> marks_all(lfs.lookahead, bc, in_use@));
                }
                return Ok(b);
            }
            proof {
                let m = bc as int;
                assert(!free_ahead(la_in, bc, in_use@, e0)) by {
                    assert(la_marked(la_at.buffer@, off as int));
                }
                assert forall|t: int| 0 <= t < la_in.ckpoint - lfs.lookahead.ckpoint implies !#[trigger] free_ahead(
                    la_in,
                    bc,
                    in_use@,
                    t,
                ) by {
                    if t < e0 {
                        assert(!free_ahead(la_in, bc, in_use@, t));
                    }
                }
                vstd::arithmetic::div_mod::lemma_add_mod_noop(la_at.start + la_at.next, 1, m);
                vstd::arithmetic::div_mod::lemma_add_mod_noop(la_in.start + la_in.next + e0, 1, m);
            }
        }
        proof {
            assert(first_clear(entry.buffer@, lfs.lookahead.next as int, entry.size as int) == entry.size);
        }
        if lfs.lookahead.ckpoint == 0 {
            return Err(LfsError::NoSpc);
        }
        let ghost c1 = lfs.lookahead.ckpoint;
        lfs_alloc_scan(lfs, in_use);
        proof {
            let m = bc as int;
            let e = la_in.ckpoint - lfs.lookahead.ckpoint;
            let d = la_in.next + e;
            vstd::arithmetic::div_mod::lemma_add_mod_noop(la_in.start as int, d, m);
            vstd::arithmetic::div_mod::lemma_small_mod(la_in.start as nat, m as nat);
            vstd::arithmetic::div_mod::lemma_small_mod(lfs.lookahead.start as nat, m as nat);
            assert(lfs.lookahead.start == (la_in.start + d) % m);
            assert forall|k: int| lfs.lookahead.next <= k < lfs.lookahead.size implies (la_marked(
                lfs.lookahead.buffer@,
                k,
            ) <==> !free_ahead(la_in, bc, in_use@, la_in.ckpoint - lfs.lookahead.ckpoint + k - lfs.lookahead.next)) by {
                assert(la_marked(lfs.lookahead.buffer@, k) <==> in_use_at(lfs.lookahead.start, bc, in_use@, k));
                assert forall|i: int| 0 <= i < in_use@.len() implies (la_off(lfs.lookahead.start, bc, #[trigger] in_use@[i])
                    == k <==> la_off(la_in.start, bc, in_use@[i]) == (d + k) % m) by {
                    lemma_la_off_shift(la_in.start, lfs.lookahead.start, bc, d, in_use@[i], k);
                }
                assert(la_in.next + (e + k) == d + k);
            }
            first = false;
            assert(lfs.lookahead.size >= 1);
            assert(c1 == entry.ckpoint - (entry.size - entry.next));
        }
    }
}

} // verus!
