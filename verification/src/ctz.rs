//! Files as CTZ skip-lists: block `i` of a file starts with `ctz(i) + 1`
//! pointers, pointer `k` naming block `i - 2^k`, followed by file data.
use vstd::prelude::*;
use crate::bd::{
    BlockDevice, cache_geometry_ok, device_ok, lemma_contiguous_gap, lemma_overlay_index, lemma_window_contiguous, write_window,
    lemma_prog_leaves_rest, lemma_read_after_prog, lfs_bd_erase, lfs_bd_prog, lfs_bd_read,
    lfs_cache_drop, lfs_cache_zero, logical, overlay, pcache_ok, prog_contiguous, prog_expect,
    rcache_ok,
};
use crate::fs::Lfs;
use crate::allocator::{la_off, lfs_alloc, lookahead_ok, marks_all};
use crate::bd::lemma_divides_trans;
use crate::defines::{LfsBlock, LfsCache, LfsConfig, LfsError, LfsOff, LfsSize, LFS_BLOCK_NULL};
use crate::util::{
    exp2, le32_of, lemma_exp2_monotone, lemma_exp2_pos, lemma_npw2, lemma_popc_bound, lemma_popc_step, lfs_ctz, lfs_le32_decode, lfs_npw2,
    lfs_le32_encode, lfs_min, lfs_popc, spec_ctz, spec_npw2, spec_popc,
};

verus! {

/// The block index and in-block offset of byte `size` of a file, as the
/// closed form over word arithmetic gives them.
pub open spec fn ctz_index_spec(block_size: u32, size: u32) -> (u32, u32) {
    let b: int = block_size - 8;
    let i0: int = size as int / b;
    if i0 == 0 {
        (0u32, size)
    } else {
        let i = (((size - 4 * (spec_popc((i0 - 1) as u32) + 2)) % 0x1_0000_0000) / b) as u32;
        let off = ((size - b * i - 4 * spec_popc(i)) % 0x1_0000_0000) as u32;
        (i, off)
    }
}

/// Finds the index of the block holding byte `*off` of a file, and turns
/// `*off` into the offset of that byte in the block.
pub fn lfs_ctz_index(cfg: &LfsConfig, off: &mut LfsOff) -> (i: u32)
    requires
        cfg.block_size > 8,
    ensures
        (i, *final(off)) == ctz_index_spec(cfg.block_size, *old(off)),
{
    let size = *off;
    let b = cfg.block_size - 8;
    let i0 = size / b;
    if i0 == 0 {
        return 0;
    }
    let p = lfs_popc(i0 - 1);
    let t = size.wrapping_sub(4 * (p + 2));
    let i = t / b;
    proof {
        assert(b * i <= t) by (nonlinear_arith)
            requires
                i == t / b,
                b > 0,
        ;
    }
    let q = lfs_popc(i);
    let u = size.wrapping_sub(b * i);
    let v = u.wrapping_sub(4 * q);
    *off = v;
    proof {
        assert(t == (size - 4 * (spec_popc((i0 - 1) as u32) + 2)) % 0x1_0000_0000);
        assert(v == (size - b * i - 4 * spec_popc(i)) % 0x1_0000_0000);
    }
    i
}


/// Pointer `k` of the block `blk`: the little-endian word at `4 * k`.
pub open spec fn ctz_ptr(l: Seq<Seq<u8>>, blk: u32, k: int) -> u32 {
    le32_of(l[blk as int].subrange(4 * k as int, 4 * k as int + 4))
}

/// The pointer a search from index `current` towards `target` follows:
/// the largest power of two step that does not pass `target` and that the
/// block holds.
pub open spec fn ctz_skip(current: u32, target: u32) -> nat {
    let a = spec_npw2((current - target + 1) as u32);
    let c = spec_ctz(current);
    if (a - 1) < c {
        (a - 1) as nat
    } else {
        c
    }
}

/// The block reached from `head`, at index `current`, by skipping down
/// through the list's pointers until index `target`.
pub open spec fn ctz_walk(l: Seq<Seq<u8>>, head: u32, current: u32, target: u32) -> u32
    decreases current,
{
    if current <= target {
        head
    } else {
        let skip = ctz_skip(current, target);
        if exp2(skip) > current - target || exp2(skip) == 0 {
            head
        } else {
            ctz_walk(l, ctz_ptr(l, head, skip as int), (current - exp2(skip)) as u32, target)
        }
    }
}

/// `2^n` as a word.
pub(crate) fn pow2_u32(n: u32) -> (r: u32)
    requires
        n < 32,
    ensures
        r == exp2(n as nat),
{
    let mut r: u32 = 1;
    let mut i: u32 = 0;
    while i < n
        invariant
            i <= n,
            n < 32,
            r == exp2(i as nat),
        decreases n - i,
    {
        proof {
            lemma_exp2_monotone((i + 1) as nat, 31);
            reveal_with_fuel(exp2, 32);
            assert(exp2(31) == 0x8000_0000);
        }
        r = r * 2;
        i = i + 1;
    }
    r
}

/// Finds the block holding byte `pos` of a file of `size` bytes whose
/// skip-list ends in `head`, and the offset of that byte in it.
pub fn lfs_ctz_find<D: BlockDevice>(
    cfg: &LfsConfig,
    bd: &D,
    block_count: LfsSize,
    pcache: Option<&LfsCache>,
    rcache: &mut LfsCache,
    head: LfsBlock,
    size: LfsSize,
    pos: LfsSize,
    block: &mut LfsBlock,
    off: &mut LfsOff,
) -> (r: Result<(), LfsError>)
    requires
        cache_geometry_ok(*cfg),
        cfg.block_size >= 128,
        device_ok(*cfg, bd.blocks()),
        block_count == bd.blocks().len(),
        rcache_ok(*cfg, bd.blocks(), *old(rcache)),
        pcache matches Some(p) ==> pcache_ok(*cfg, bd.blocks(), *p),
    ensures
        rcache_ok(*cfg, bd.blocks(), *final(rcache)),
        r is Err ==> *final(block) == *old(block) && *final(off) == *old(off),
        size == 0 ==> r is Ok && *final(block) == LFS_BLOCK_NULL && *final(off) == 0,
        size > 0 && r is Ok ==> {
            let current = ctz_index_spec(cfg.block_size, (size - 1) as u32).0;
            let target = ctz_index_spec(cfg.block_size, pos);
            &&& *final(block) == ctz_walk(logical(bd.blocks(), pcache), head, current, target.0)
            &&& *final(off) == target.1
        },
        bd.reads_ok() && size > 0 && (exists|c: Seq<u32>|
            ctz_chain_ok(
                logical(bd.blocks(), pcache),
                c,
                ctz_index_spec(cfg.block_size, (size - 1) as u32).0 as int,
            ) && #[trigger] c[ctz_index_spec(cfg.block_size, (size - 1) as u32).0 as int] == head) ==> r is Ok,
        size > 0 && ctz_index_spec(cfg.block_size, pos).0 >= ctz_index_spec(cfg.block_size, (size - 1) as u32).0 ==> {
            &&& r is Ok
            &&& *final(block) == head
            &&& *final(off) == ctz_index_spec(cfg.block_size, pos).1
        },
{
    if size == 0 {
        *block = LFS_BLOCK_NULL;
        *off = 0;
        return Ok(());
    }
    let mut last = size - 1;
    let mut current = lfs_ctz_index(cfg, &mut last);
    let mut tpos = pos;
    let target = lfs_ctz_index(cfg, &mut tpos);
    let ghost l = logical(bd.blocks(), pcache);
    let ghost cur0 = current;
    let ghost has_chain = bd.reads_ok() && exists|c: Seq<u32>| ctz_chain_ok(l, c, cur0 as int) && #[trigger] c[cur0 as int] == head;
    let ghost chain0 = choose|c: Seq<u32>| ctz_chain_ok(l, c, cur0 as int) && #[trigger] c[cur0 as int] == head;
    let mut h = head;
    proof {
        assert(current <= 0xffff_ffffu32 / 120) by (nonlinear_arith)
            requires
                current == ctz_index_spec(cfg.block_size, (size - 1) as u32).0,
                cfg.block_size >= 128,
        {
            let b: int = cfg.block_size - 8;
            let i0: int = (size - 1) as int / b;
            if i0 != 0 {
                let t = (((size - 1) - 4 * (spec_popc((i0 - 1) as u32) + 2)) % 0x1_0000_0000);
                assert(t / b <= t / 120) by (nonlinear_arith)
                    requires b >= 120, t >= 0;
            }
        }
    }
    while current > target
        invariant
            cache_geometry_ok(*cfg),
            cfg.block_size >= 128,
            device_ok(*cfg, bd.blocks()),
            block_count == bd.blocks().len(),
            rcache_ok(*cfg, bd.blocks(), *rcache),
            pcache matches Some(p) ==> pcache_ok(*cfg, bd.blocks(), *p),
            l == logical(bd.blocks(), pcache),
            *block == *old(block),
            *off == *old(off),
            size > 0,
            current <= cur0,
            cur0 <= 0xffff_ffffu32 / 120,
            ctz_walk(l, h, current, target) == ctz_walk(l, head, cur0, target),
            has_chain ==> bd.reads_ok() && ctz_chain_ok(l, chain0, cur0 as int) && h == chain0[current as int],
            cur0 == ctz_index_spec(cfg.block_size, (size - 1) as u32).0,
            target == ctz_index_spec(cfg.block_size, pos).0,
            has_chain == (bd.reads_ok() && exists|c: Seq<u32>| ctz_chain_ok(l, c, cur0 as int) && #[trigger] c[cur0 as int] == head),
        decreases current,
    {
        let x = current - target + 1;
        let a = lfs_npw2(x);
        proof {
            assert(exp2(0) == 1);
        }
        let c = lfs_ctz(current);
        let skip = if a - 1 < c { a - 1 } else { c };
        proof {
            lemma_exp2_monotone(skip as nat, (a - 1) as nat);
            lemma_exp2_pos(skip as nat);
            assert(skip == ctz_skip(current, target));
        }
        let step = pow2_u32(skip);
        proof {
            if has_chain {
                assert(chain_link(l, chain0, current as int, skip as int));
                assert(l[h as int].len() == cfg.block_size);
            }
        }
        let dat = lfs_bd_read(cfg, bd, block_count, pcache, rcache, 4, h, 4 * skip, 4)?;
        let nh = lfs_le32_decode(dat.as_slice(), 0);
        proof {
            assert(dat@.subrange(0, 4) =~= dat@);
            assert(nh == ctz_ptr(l, h, skip as int));
        }
        h = nh;
        current = current - step;
    }
    *block = h;
    *off = tpos;
    Ok(())
}

/// Pointer `k` of block `i` of the skip-list `chain` names block `i - 2^k`.
pub open spec fn chain_link(l: Seq<Seq<u8>>, chain: Seq<u32>, i: int, k: int) -> bool {
    &&& 4 * k + 4 <= l[chain[i] as int].len()
    &&& ctz_ptr(l, chain[i], k) == chain[i - exp2(k as nat)]
}

/// The blocks `chain[0..=n]` form a well-formed skip-list: pointer `k` of
/// block `i` names block `i - 2^k`, for every pointer the block holds.
pub open spec fn ctz_chain_ok(l: Seq<Seq<u8>>, chain: Seq<u32>, n: int) -> bool {
    &&& 0 <= n < chain.len()
    &&& forall|i: int| 0 <= i <= n ==> #[trigger] chain[i] < l.len()
    &&& forall|i: int, k: int|
        0 < i <= n && 0 <= k <= spec_ctz(i as u32) ==> #[trigger] chain_link(l, chain, i, k)
}

/// A power of two that divides a positive number is at most that number.
pub proof fn lemma_exp2_ctz_le(i: u32)
    requires
        i > 0,
    ensures
        exp2(spec_ctz(i)) <= i,
    decreases i,
{
    if i % 2 == 0 {
        lemma_exp2_ctz_le(i / 2);
        assert(exp2(spec_ctz(i)) == 2 * exp2(spec_ctz(i / 2)));
    }
}

/// Searching a well-formed skip-list of `n + 1` blocks from its block at
/// index `current` ends at its block at index `target`.
proof fn lemma_ctz_walk_within(l: Seq<Seq<u8>>, chain: Seq<u32>, n: int, current: u32, target: u32)
    requires
        ctz_chain_ok(l, chain, n),
        target <= current <= n,
        current < 0xffff_ffff,
    ensures
        ctz_walk(l, chain[current as int], current, target) == chain[target as int],
    decreases current,
{
    if current > target {
        let skip = ctz_skip(current, target);
        let x = (current - target + 1) as u32;
        let a = spec_npw2(x);
        lemma_npw2(x);
        assert(exp2(0) == 1);
        lemma_exp2_monotone(skip, (a - 1) as nat);
        lemma_exp2_pos(skip);
        let next = (current - exp2(skip)) as u32;
        assert(chain_link(l, chain, current as int, skip as int));
        lemma_ctz_walk_within(l, chain, n, next, target);
    }
}

/// Searching a well-formed skip-list from its block at index `current`
/// ends at its block at index `target`.
pub proof fn lemma_ctz_find_chain(l: Seq<Seq<u8>>, chain: Seq<u32>, current: u32, target: u32)
    requires
        ctz_chain_ok(l, chain, current as int),
        target <= current,
        current < 0xffff_ffff,
    ensures
        ctz_walk(l, chain[current as int], current, target) == chain[target as int],
{
    lemma_ctz_walk_within(l, chain, current as int, current, target);
}

/// Pointer `k` of a new block appended after `head`: `head` itself, then
/// for each further pointer, the pointer of the same rank in the block the
/// previous one names.
pub open spec fn ctz_ptr_seq(l: Seq<Seq<u8>>, head: u32, k: nat) -> u32
    decreases k,
{
    if k == 0 {
        head
    } else {
        ctz_ptr(l, ctz_ptr_seq(l, head, (k - 1) as nat), k - 1)
    }
}

/// None of the first `n` blocks that pointer collection reads is `nb`.
pub open spec fn ptrs_avoid(l: Seq<Seq<u8>>, head: u32, n: nat, nb: u32) -> bool {
    forall|j: nat| j < n ==> #[trigger] ctz_ptr_seq(l, head, j) != nb
}

/// The offset into the new last block after extending a file of `size`
/// bytes: the copied bytes of a partial last block, or the pointers of a
/// fresh one.
pub open spec fn extend_off(block_size: u32, size: u32) -> u32 {
    if size == 0 {
        0
    } else {
        let (idx, o) = ctz_index_spec(block_size, (size - 1) as u32);
        let noff = ((o + 1) % 0x1_0000_0000) as u32;
        if noff != block_size {
            noff
        } else {
            (4 * (spec_ctz((idx + 1) as u32) + 1)) as u32
        }
    }
}

/// What a new last block `nb` holds in `v` after extending the file of
/// `size` bytes whose last block is `head`, with the device before as `b`:
/// a partial last block is copied over; after a full one, the new block
/// starts with its skip-list pointers.
pub open spec fn extended_ok(
    b: Seq<Seq<u8>>,
    v: Seq<Seq<u8>>,
    block_size: u32,
    head: u32,
    size: u32,
    nb: u32,
) -> bool {
    size > 0 ==> {
        let (idx, o) = ctz_index_spec(block_size, (size - 1) as u32);
        let noff = ((o + 1) % 0x1_0000_0000) as u32;
        if noff != block_size {
            head != nb ==> v[nb as int].subrange(0, noff as int) == b[head as int].subrange(0, noff as int)
        } else {
            let skips = spec_ctz((idx + 1) as u32) + 1;
            ptrs_avoid(b, head, (skips - 1) as nat, nb) ==> forall|k: nat|
                k < skips ==> #[trigger] le32_of(v[nb as int].subrange(4 * k as int, 4 * k as int + 4))
                    == ctz_ptr_seq(b, head, k)
        }
    }
}

/// Every part of the filesystem but the device and the read cache is the same.
pub open spec fn same_but_device<D: BlockDevice>(a: Lfs<D>, b: Lfs<D>) -> bool {
    &&& a.cfg == b.cfg
    &&& a.pcache == b.pcache
    &&& a.root == b.root
    &&& a.mlist == b.mlist
    &&& a.seed == b.seed
    &&& a.gstate == b.gstate
    &&& a.gdisk == b.gdisk
    &&& a.gdelta == b.gdelta
    &&& a.lookahead == b.lookahead
    &&& a.block_count == b.block_count
    &&& a.name_max == b.name_max
    &&& a.file_max == b.file_max
    &&& a.attr_max == b.attr_max
    &&& a.inline_max == b.inline_max
}

/// A block index of a file is small enough that the next one and its
/// pointers fit.
pub proof fn lemma_ctz_index_bound(block_size: u32, size: u32)
    requires
        block_size >= 128,
    ensures
        ctz_index_spec(block_size, size).0 <= 0xffff_ffffu32 / 120,
{
    let b: int = block_size - 8;
    let i0: int = size as int / b;
    if i0 != 0 {
        let t = ((size - 4 * (spec_popc((i0 - 1) as u32) + 2)) % 0x1_0000_0000);
        assert(t / b <= t / 120) by (nonlinear_arith)
            requires
                b >= 120,
                t >= 0,
        ;
        assert(t / 120 <= 0xffff_ffffu32 / 120) by (nonlinear_arith)
            requires
                0 <= t < 0x1_0000_0000,
        ;
    }
}

/// A positive word has fewer than 32 trailing zeros.
pub proof fn lemma_ctz_lt_32(x: u32)
    requires
        x > 0,
    ensures
        spec_ctz(x) < 32,
{
    lemma_exp2_ctz_le(x);
    if spec_ctz(x) >= 32 {
        lemma_exp2_monotone(32, spec_ctz(x));
        crate::util::lemma_exp2_32();
    }
}

/// How many bytes of pointers block `i` of a skip-list starts with.
pub open spec fn ctz_ptr_bytes(i: nat) -> int {
    if i == 0 {
        0
    } else {
        (4 * (spec_ctz(i as u32) + 1)) as int
    }
}

/// The position in the file of the first data byte of block `i`: each
/// block before it holds `block_size` bytes less its pointers.
pub open spec fn ctz_block_start(block_size: u32, i: nat) -> int
    decreases i,
{
    if i == 0 {
        0
    } else {
        let j = (i - 1) as nat;
        ctz_block_start(block_size, j) + block_size - ctz_ptr_bytes(j)
    }
}

/// The data of the blocks before block `i` adds up to a closed form: the
/// pointers of blocks `1..i` number `2(i - 1) - popc(i - 1)` words.
proof fn lemma_block_start_closed(block_size: u32, i: nat)
    requires
        1 <= i < 0x1_0000_0000,
    ensures
        ctz_block_start(block_size, i) == (block_size - 8) * i + 8 + 4 * spec_popc((i - 1) as u32),
    decreases i,
{
    if i > 1 {
        let j = (i - 1) as nat;
        lemma_block_start_closed(block_size, j);
        lemma_popc_step(j as u32);
        assert((block_size - 8) * i == (block_size - 8) * j + (block_size - 8)) by (nonlinear_arith)
            requires
                i == j + 1,
        ;
    } else {
        assert(ctz_block_start(block_size, 0) == 0);
        assert(spec_popc(0) == 0);
    }
}

/// Blocks further down a list start further into the file.
pub proof fn lemma_block_start_grows(block_size: u32, a: nat, c: nat)
    requires
        block_size >= 128,
        a <= c < 0x1_0000_0000,
    ensures
        ctz_block_start(block_size, a) <= ctz_block_start(block_size, c),
    decreases c,
{
    if a < c {
        let j = (c - 1) as nat;
        lemma_block_start_grows(block_size, a, j);
        if j > 0 {
            lemma_ctz_lt_32(j as u32);
        }
    }
}

/// A position lies in the data range of one block only.
proof fn lemma_block_start_unique(block_size: u32, a: nat, c: nat, x: int)
    requires
        block_size >= 128,
        a + 1 < 0x1_0000_0000,
        c + 1 < 0x1_0000_0000,
        ctz_block_start(block_size, a) <= x < ctz_block_start(block_size, a + 1),
        ctz_block_start(block_size, c) <= x < ctz_block_start(block_size, c + 1),
    ensures
        a == c,
{
    if a < c {
        lemma_block_start_grows(block_size, a + 1, c);
    }
    if c < a {
        lemma_block_start_grows(block_size, c + 1, a);
    }
}

/// `2^26`, a bound on the block index of any byte a word can address.
proof fn lemma_exp2_26()
    ensures
        exp2(26) == 0x400_0000,
{
    reveal_with_fuel(exp2, 27);
}

/// Where byte `pos` of a file lies: `ctz_index_spec` picks the block whose
/// data range holds it, and the offset past that block's pointers and the
/// data before it.
pub proof fn lemma_ctz_index_layout(block_size: u32, pos: u32)
    requires
        block_size >= 128,
    ensures
        ({
            let (i, o) = ctz_index_spec(block_size, pos);
            &&& i < 0x400_0000
            &&& ctz_block_start(block_size, i as nat) <= pos < ctz_block_start(block_size, (i + 1) as nat)
            &&& o == pos - ctz_block_start(block_size, i as nat) + ctz_ptr_bytes(i as nat)
        }),
{
    let b: int = block_size - 8;
    let i0: int = pos as int / b;
    assert(b * i0 <= pos < b * (i0 + 1)) by (nonlinear_arith)
        requires
            b > 0,
            i0 == pos as int / b,
            pos >= 0,
    ;
    assert(0 <= i0 < 0x400_0000) by (nonlinear_arith)
        requires
            b >= 120,
            b * i0 <= pos,
            pos < 0x1_0000_0000,
            i0 == pos as int / b,
            pos >= 0,
    ;
    lemma_exp2_26();
    assert(ctz_block_start(block_size, 1) == block_size) by {
        reveal_with_fuel(ctz_block_start, 2);
    }
    if i0 == 0 {
        assert(ctz_block_start(block_size, 0) == 0);
        assert(b * (i0 + 1) == b) by (nonlinear_arith)
            requires
                i0 == 0,
        ;
    } else {
        let q = spec_popc((i0 - 1) as u32);
        lemma_popc_bound((i0 - 1) as u32, 26);
        assert(b * i0 >= b) by (nonlinear_arith)
            requires
                i0 >= 1,
                b > 0,
        ;
        let t: int = pos - 4 * (q + 2);
        assert(0 <= t < 0x1_0000_0000);
        assert((pos - 4 * (q + 2)) % 0x1_0000_0000 == t);
        let i: int = t / b;
        assert(b * i <= t < b * (i + 1)) by (nonlinear_arith)
            requires
                b > 0,
                i == t / b,
                t >= 0,
        ;
        assert(i0 - 1 <= i <= i0) by (nonlinear_arith)
            requires
                b * i <= t < b * (i + 1),
                b * i0 <= pos < b * (i0 + 1),
                t <= pos,
                t >= b * i0 - b,
                b > 0,
        ;
        let iu = i as u32;
        assert(ctz_index_spec(block_size, pos).0 == iu);
        lemma_block_start_closed(block_size, i0 as nat);
        lemma_block_start_closed(block_size, (i0 + 1) as nat);
        lemma_popc_step(i0 as u32);
        if i == i0 {
            assert(pos - b * i - 4 * spec_popc(iu) >= 4);
            assert(ctz_index_spec(block_size, pos).1 == pos - b * i - 4 * spec_popc(iu));
            assert(ctz_block_start(block_size, iu as nat) <= pos);
            assert(pos < ctz_block_start(block_size, (iu + 1) as nat));
            assert(ctz_ptr_bytes(iu as nat) == 4 * (spec_ctz(iu) + 1));
        } else if i == 0 {
            assert(iu == 0);
            assert(spec_popc(iu) == 0);
            assert(b * i == 0) by (nonlinear_arith)
                requires
                    i == 0,
            ;
            assert((pos - b * i - 4 * spec_popc(iu)) % 0x1_0000_0000 == pos);
            assert(ctz_block_start(block_size, 0) == 0);
            assert(ctz_index_spec(block_size, pos).1 == pos);
            assert(b * (i + 1) == b) by (nonlinear_arith)
                requires
                    i == 0,
            ;
            assert(i0 == 1);
            assert(q == 0);
            assert(pos < block_size);
        } else {
            lemma_block_start_closed(block_size, i as nat);
            lemma_popc_bound((i - 1) as u32, 26);
            lemma_popc_step(iu);
            assert((i0 - 1) as u32 == iu);
            assert(pos - b * i - 4 * spec_popc(iu) >= 8);
            assert(ctz_index_spec(block_size, pos).1 == pos - b * i - 4 * spec_popc(iu));
            assert(ctz_block_start(block_size, iu as nat) <= pos);
            assert(pos < ctz_block_start(block_size, (iu + 1) as nat));
            assert(ctz_ptr_bytes(iu as nat) == 4 * (spec_ctz(iu) + 1));
        }
    }
}

/// Consecutive bytes of a file fill each block's data area in order: the
/// byte after one that is not last in its block is the next one there, and
/// the byte after the last one of block `i` is the first data byte of
/// block `i + 1`, just past its pointers.
pub proof fn lemma_ctz_index_next(block_size: u32, pos: u32)
    requires
        block_size >= 128,
        pos < u32::MAX,
    ensures
        ({
            let (i, o) = ctz_index_spec(block_size, pos);
            let (i2, o2) = ctz_index_spec(block_size, (pos + 1) as u32);
            &&& ctz_ptr_bytes(i as nat) <= o < block_size
            &&& o + 1 < block_size ==> i2 == i && o2 == o + 1
            &&& o + 1 == block_size ==> i2 == i + 1 && o2 == ctz_ptr_bytes((i + 1) as nat)
        }),
{
    let (i, o) = ctz_index_spec(block_size, pos);
    let (i2, o2) = ctz_index_spec(block_size, (pos + 1) as u32);
    lemma_ctz_index_layout(block_size, pos);
    lemma_ctz_index_layout(block_size, (pos + 1) as u32);
    let j = (i + 1) as nat;
    lemma_exp2_ctz_le(j as u32);
    lemma_exp2_26();
    if spec_ctz(j as u32) > 26 {
        lemma_exp2_monotone(27, spec_ctz(j as u32));
        reveal_with_fuel(exp2, 28);
    }
    assert(ctz_block_start(block_size, j + 1) == ctz_block_start(block_size, j) + block_size - ctz_ptr_bytes(j));
    if o + 1 < block_size {
        lemma_block_start_unique(block_size, i as nat, i2 as nat, pos + 1);
    } else {
        lemma_block_start_unique(block_size, j, i2 as nat, pos + 1);
    }
}

/// A run of `d` bytes that stays inside one block's data continues at the
/// same block, `d` bytes further on.
pub proof fn lemma_ctz_index_run(block_size: u32, pos: u32, d: u32)
    requires
        block_size >= 128,
        pos + d <= u32::MAX,
        ctz_index_spec(block_size, pos).1 + d < block_size,
    ensures
        ctz_index_spec(block_size, (pos + d) as u32).0 == ctz_index_spec(block_size, pos).0,
        ctz_index_spec(block_size, (pos + d) as u32).1 == ctz_index_spec(block_size, pos).1 + d,
    decreases d,
{
    if d > 0 {
        lemma_ctz_index_run(block_size, pos, (d - 1) as u32);
        lemma_ctz_index_next(block_size, (pos + d - 1) as u32);
    }
}

/// Finds the index of the block holding byte `*off` of a file of the first
/// format by walking the blocks from the start, each holding `block_size`
/// bytes less its pointers, and turns `*off` into the offset of that byte
/// in its block. It agrees with the closed form.
pub fn lfs_index(cfg: &LfsConfig, off: &mut LfsOff) -> (i: LfsOff)
    requires
        cfg.block_size >= 128,
    ensures
        (i, *final(off)) == ctz_index_spec(cfg.block_size, *old(off)),
{
    let bs = cfg.block_size;
    let p = *off;
    let words = bs / 4;
    let ghost target = ctz_index_spec(bs, p);
    proof {
        lemma_ctz_index_layout(bs, p);
        assert(ctz_block_start(bs, 0) == 0);
        assert(ctz_ptr_bytes(0) == 0);
    }
    let mut i: u32 = 0;
    let mut cur = p;
    while cur >= bs
        invariant
            bs == cfg.block_size,
            bs >= 128,
            words == bs / 4,
            target == ctz_index_spec(bs, p),
            target.0 < 0x400_0000,
            ctz_block_start(bs, target.0 as nat) <= p < ctz_block_start(bs, (target.0 + 1) as nat),
            target.1 == p - ctz_block_start(bs, target.0 as nat) + ctz_ptr_bytes(target.0 as nat),
            i <= target.0,
            ctz_block_start(bs, i as nat) <= p,
            cur == p - ctz_block_start(bs, i as nat) + ctz_ptr_bytes(i as nat),
        decreases cur,
    {
        proof {
            assert(ctz_block_start(bs, (i + 1) as nat) == ctz_block_start(bs, i as nat) + bs - ctz_ptr_bytes(i as nat));
            if i == target.0 {
                assert(false);
            }
            lemma_exp2_ctz_le((i + 1) as u32);
            lemma_exp2_26();
            if spec_ctz((i + 1) as u32) > 26 {
                lemma_exp2_monotone(27, spec_ctz((i + 1) as u32));
                reveal_with_fuel(exp2, 28);
            }
        }
        i = i + 1;
        cur = cur - bs;
        let c = lfs_ctz(i) + 1;
        let cap = if words > 0 { words - 1 } else { 0 };
        cur = cur + 4 * lfs_min(c, cap);
    }
    proof {
        lemma_block_start_unique(bs, i as nat, target.0 as nat, p as int);
    }
    *off = cur;
    i
}

/// A block index below `2^26` has fewer than 26 trailing zeros.
pub proof fn lemma_ctz_index_small(i: u32)
    requires
        0 < i < 0x400_0000,
    ensures
        spec_ctz(i) < 26,
{
    lemma_exp2_ctz_le(i);
    lemma_exp2_26();
    if spec_ctz(i) >= 26 {
        lemma_exp2_monotone(26, spec_ctz(i));
    }
}

/// Programming a word at word `i` of a block keeps the words before it and
/// holds the word written.
proof fn lemma_prog_word(b: Seq<u8>, i: nat, bytes: Seq<u8>)
    requires
        bytes.len() == 4,
        4 * i + 4 <= b.len(),
    ensures
        prog_expect(b, 4 * i as int, 4 * i as int, bytes).len() == b.len(),
        prog_expect(b, 4 * i as int, 4 * i as int, bytes).subrange(4 * i as int, 4 * i as int + 4) == bytes,
        forall|k: nat|
            k < i ==> #[trigger] prog_expect(b, 4 * i as int, 4 * i as int, bytes).subrange(
                4 * k as int,
                4 * k as int + 4,
            ) == b.subrange(4 * k as int, 4 * k as int + 4),
{
    let p = prog_expect(b, 4 * i as int, 4 * i as int, bytes);
    lemma_read_after_prog(b, 4 * i as int, 4 * i as int, bytes);
    assert forall|k: nat| k < i implies #[trigger] p.subrange(4 * k as int, 4 * k as int + 4) == b.subrange(
        4 * k as int,
        4 * k as int + 4,
    ) by {
        assert(p.subrange(4 * k as int, 4 * k as int + 4) =~= b.subrange(4 * k as int, 4 * k as int + 4));
    }
}

/// The blocks extending a file of `size` bytes ending in `head` into
/// `nb` reads lie on a device of `block_count` blocks: the last block when
/// it is copied, else the blocks its pointers are collected from, none of
/// them `nb`.
pub open spec fn extend_reads_fit(
    b: Seq<Seq<u8>>,
    block_size: u32,
    head: u32,
    size: u32,
    block_count: u32,
    nb: u32,
) -> bool {
    size > 0 ==> {
        let (idx, o) = ctz_index_spec(block_size, (size - 1) as u32);
        let noff = ((o + 1) % 0x1_0000_0000) as u32;
        if noff != block_size {
            head < block_count
        } else {
            forall|j: nat|
                j < spec_ctz((idx + 1) as u32) ==> #[trigger] ctz_ptr_seq(b, head, j) < block_count
                    && ctz_ptr_seq(b, head, j) != nb
        }
    }
}

/// One try at extending: erases `nblock` and writes it as the block that
/// follows `head` in a file of `size` bytes, returning the offset reached
/// in it. `Corrupt` means the new block went bad.
#[verifier::rlimit(80)]
fn lfs_ctz_extend_try<D: BlockDevice>(
    lfs: &mut Lfs<D>,
    pcache: &mut LfsCache,
    nblock: LfsBlock,
    head: LfsBlock,
    size: LfsSize,
) -> (r: Result<LfsOff, LfsError>)
    requires
        cache_geometry_ok(old(lfs).cfg),
        old(lfs).cfg.block_size >= 128,
        device_ok(old(lfs).cfg, old(lfs).bd.blocks()),
        old(lfs).block_count == old(lfs).bd.blocks().len(),
        rcache_ok(old(lfs).cfg, old(lfs).bd.blocks(), old(lfs).rcache),
        nblock < old(lfs).block_count,
        pcache_ok(old(lfs).cfg, old(lfs).bd.blocks(), *old(pcache)),
        old(pcache).block == LFS_BLOCK_NULL,
    ensures
        same_but_device(*final(lfs), *old(lfs)),
        device_ok(final(lfs).cfg, final(lfs).bd.blocks()),
        final(lfs).bd.blocks().len() == old(lfs).bd.blocks().len(),
        forall|i: int|
            0 <= i < old(lfs).bd.blocks().len() && i != nblock ==> #[trigger] final(lfs).bd.blocks()[i]
                == old(lfs).bd.blocks()[i],
        final(lfs).rcache.buffer@.len() == old(lfs).cfg.cache_size,
        final(pcache).buffer@.len() == old(lfs).cfg.cache_size,
        final(pcache).size <= old(lfs).cfg.cache_size,
        r matches Ok(o) ==> {
            let v = overlay(final(lfs).bd.blocks(), *final(pcache));
            &&& rcache_ok(final(lfs).cfg, final(lfs).bd.blocks(), final(lfs).rcache)
            &&& pcache_ok(final(lfs).cfg, final(lfs).bd.blocks(), *final(pcache))
            &&& (final(pcache).block == LFS_BLOCK_NULL || final(pcache).block == nblock)
            &&& o == extend_off(old(lfs).cfg.block_size, size)
            &&& write_window(final(lfs).cfg, *final(pcache), nblock, o)
            &&& extended_ok(old(lfs).bd.blocks(), v, old(lfs).cfg.block_size, head, size, nblock)
            &&& forall|i: int|
                0 <= i < v.len() && i != nblock ==> #[trigger] v[i] == old(lfs).bd.blocks()[i]
        },
        final(lfs).bd.reads_ok() == old(lfs).bd.reads_ok(),
        final(lfs).bd.writes_ok() == old(lfs).bd.writes_ok(),
        old(lfs).bd.reads_ok() && old(lfs).bd.writes_ok() && extend_reads_fit(
            old(lfs).bd.blocks(),
            old(lfs).cfg.block_size,
            head,
            size,
            old(lfs).block_count,
            nblock,
        ) ==> r is Ok,
{
    let ghost b0 = lfs.bd.blocks();
    let bc = lfs.block_count;
    let bs = lfs.cfg.block_size;
    let er = lfs_bd_erase(&mut lfs.bd, nblock);
    if lfs.rcache.block == nblock {
        lfs_cache_drop(&mut lfs.rcache);
    }
    proof {
        assert forall|i: int| 0 <= i < lfs.bd.blocks().len() implies #[trigger] lfs.bd.blocks()[i].len()
            == bs by {
            assert(b0[i].len() == bs);
        }
    }
    er?;
    if size == 0 {
        proof {
            assert(overlay(lfs.bd.blocks(), *pcache) == lfs.bd.blocks());
        }
        return Ok(0);
    }
    let mut last = size - 1;
    let index = lfs_ctz_index(&lfs.cfg, &mut last);
    let noff = last.wrapping_add(1);
    if noff != bs {
        proof {
            lemma_ctz_index_layout(bs, (size - 1) as u32);
        }
        let mut i: u32 = 0;
        while i < noff
            invariant
                cache_geometry_ok(lfs.cfg),
                b0 == old(lfs).bd.blocks(),
                pcache.buffer@.len() == lfs.cfg.cache_size,
                pcache.size <= lfs.cfg.cache_size,
                bs == lfs.cfg.block_size,
                bc == lfs.block_count,
                device_ok(lfs.cfg, lfs.bd.blocks()),
                lfs.bd.blocks().len() == b0.len(),
                bc == b0.len(),
                nblock < bc,
                forall|x: int| 0 <= x < b0.len() && x != nblock ==> #[trigger] lfs.bd.blocks()[x] == b0[x],
                rcache_ok(lfs.cfg, lfs.bd.blocks(), lfs.rcache),
                pcache_ok(lfs.cfg, lfs.bd.blocks(), *pcache),
                pcache.block == LFS_BLOCK_NULL || pcache.block == nblock,
                write_window(lfs.cfg, *pcache, nblock, i),
                same_but_device(*lfs, *old(lfs)),
                i <= noff,
                i <= bs,
                head != nblock ==> overlay(lfs.bd.blocks(), *pcache)[nblock as int].subrange(0, i as int)
                    == b0[head as int].subrange(0, i as int),
                lfs.bd.reads_ok() == old(lfs).bd.reads_ok(),
                lfs.bd.writes_ok() == old(lfs).bd.writes_ok(),
                old(lfs).bd.reads_ok() && old(lfs).bd.writes_ok() && extend_reads_fit(b0, bs, head, size, bc, nblock)
                    ==> head < bc,
                noff <= bs,
                forall|x: int|
                    0 <= x < b0.len() && x != nblock ==> #[trigger] overlay(lfs.bd.blocks(), *pcache)[x]
                        == b0[x],
            decreases noff - i,
        {
            let d = lfs_bd_read(&lfs.cfg, &lfs.bd, bc, None, &mut lfs.rcache, noff - i, head, i, 1)?;
            let ghost vpre = overlay(lfs.bd.blocks(), *pcache);
            proof {
                lemma_window_contiguous(lfs.cfg, *pcache, nblock, i);
                lemma_contiguous_gap(lfs.cfg, *pcache, nblock, i);
                lemma_overlay_index(lfs.cfg, lfs.bd.blocks(), *pcache, nblock as int, 0);
            }
            lfs_bd_prog(&lfs.cfg, &mut lfs.bd, bc, pcache, &mut lfs.rcache, true, nblock, i, d.as_slice())?;
            proof {
                let vn = overlay(lfs.bd.blocks(), *pcache);
                lemma_read_after_prog(vpre[nblock as int], i as int, i as int, d@);
                assert(vn[nblock as int] == prog_expect(vpre[nblock as int], i as int, i as int, d@));
                if head != nblock {
                    assert forall|k: int| 0 <= k < i + 1 implies #[trigger] vn[nblock as int].subrange(0, i + 1)[k]
                        == b0[head as int].subrange(0, i + 1)[k] by {
                        if k < i {
                            lemma_prog_leaves_rest(vpre[nblock as int], i as int, i as int, d@, k);
                            assert(vpre[nblock as int].subrange(0, i as int)[k] == b0[head as int].subrange(0, i as int)[k]);
                        } else {
                            assert(vn[nblock as int].subrange(i as int, i + 1)[0] == d@[0]);
                        }
                    }
                    assert(vn[nblock as int].subrange(0, i + 1) =~= b0[head as int].subrange(0, i + 1));
                }
            }
            i = i + 1;
        }
        return Ok(noff);
    }
    proof {
        lemma_ctz_index_bound(bs, (size - 1) as u32);
    }
    let index = index + 1;
    proof {
        lemma_ctz_lt_32(index);
    }
    let skips = lfs_ctz(index) + 1;
    let mut nhead = head;
    let mut i: u32 = 0;
    while i < skips
        invariant
            cache_geometry_ok(lfs.cfg),
            b0 == old(lfs).bd.blocks(),
            pcache.buffer@.len() == lfs.cfg.cache_size,
            pcache.size <= lfs.cfg.cache_size,
            bs == lfs.cfg.block_size,
            bs >= 128,
            bc == lfs.block_count,
            device_ok(lfs.cfg, lfs.bd.blocks()),
            lfs.bd.blocks().len() == b0.len(),
            bc == b0.len(),
            nblock < bc,
            forall|x: int| 0 <= x < b0.len() && x != nblock ==> #[trigger] lfs.bd.blocks()[x] == b0[x],
            rcache_ok(lfs.cfg, lfs.bd.blocks(), lfs.rcache),
            pcache_ok(lfs.cfg, lfs.bd.blocks(), *pcache),
            pcache.block == LFS_BLOCK_NULL || pcache.block == nblock,
            write_window(lfs.cfg, *pcache, nblock, (4 * i) as u32),
            same_but_device(*lfs, *old(lfs)),
            skips <= 32,
            i <= skips,
            i < skips && ptrs_avoid(b0, head, i as nat, nblock) ==> nhead == ctz_ptr_seq(b0, head, i as nat),
            lfs.bd.reads_ok() == old(lfs).bd.reads_ok(),
            lfs.bd.writes_ok() == old(lfs).bd.writes_ok(),
            old(lfs).bd.reads_ok() && old(lfs).bd.writes_ok() && extend_reads_fit(b0, bs, head, size, bc, nblock)
                ==> skips == spec_ctz(index) + 1 && (forall|j: nat|
                j < skips - 1 ==> #[trigger] ctz_ptr_seq(b0, head, j) < bc && ctz_ptr_seq(b0, head, j) != nblock),
            ptrs_avoid(b0, head, (i - 1) as nat, nblock) ==> forall|k: nat|
                k < i ==> #[trigger] le32_of(overlay(lfs.bd.blocks(), *pcache)[nblock as int].subrange(4 * k as int, 4 * k as int + 4)) == ctz_ptr_seq(b0, head, k),
            forall|x: int|
                0 <= x < b0.len() && x != nblock ==> #[trigger] overlay(lfs.bd.blocks(), *pcache)[x]
                    == b0[x],
        decreases skips - i,
    {
        let bytes = lfs_le32_encode(nhead);
        let ghost vpre = overlay(lfs.bd.blocks(), *pcache);
        proof {
            lemma_window_contiguous(lfs.cfg, *pcache, nblock, (4 * i) as u32);
            lemma_contiguous_gap(lfs.cfg, *pcache, nblock, (4 * i) as u32);
            lemma_overlay_index(lfs.cfg, lfs.bd.blocks(), *pcache, nblock as int, 0);
        }
        lfs_bd_prog(&lfs.cfg, &mut lfs.bd, bc, pcache, &mut lfs.rcache, true, nblock, 4 * i, bytes.as_slice())?;
        let ghost vn = overlay(lfs.bd.blocks(), *pcache);
        proof {
            assert(vn[nblock as int] == prog_expect(vpre[nblock as int], 4 * i as int, 4 * i as int, bytes@));
            lemma_prog_word(vpre[nblock as int], i as nat, bytes@);
        }
        if i != skips - 1 {
            let dat = lfs_bd_read(&lfs.cfg, &lfs.bd, bc, None, &mut lfs.rcache, 4, nhead, 4 * i, 4)?;
            let next = lfs_le32_decode(dat.as_slice(), 0);
            proof {
                assert(dat@.subrange(0, 4) =~= dat@);
                if ptrs_avoid(b0, head, (i + 1) as nat, nblock) {
                    assert(ptrs_avoid(b0, head, i as nat, nblock));
                    assert(ctz_ptr_seq(b0, head, i as nat) != nblock);
                    assert(ctz_ptr_seq(b0, head, (i + 1) as nat) == ctz_ptr(b0, ctz_ptr_seq(b0, head, i as nat), i as int));
                }
            }
            nhead = next;
        }
        proof {
            if ptrs_avoid(b0, head, (i + 1) as nat, nblock) {
                assert(ptrs_avoid(b0, head, i as nat, nblock));
            }
            if ptrs_avoid(b0, head, i as nat, nblock) {
                if i > 0 {
                    assert(ptrs_avoid(b0, head, (i - 1) as nat, nblock));
                }
                assert forall|k: nat| k < i + 1 implies #[trigger] le32_of(vn[nblock as int].subrange(
                    4 * k as int,
                    4 * k as int + 4,
                )) == ctz_ptr_seq(b0, head, k) by {
                    if k < i {
                        assert(vn[nblock as int].subrange(4 * k as int, 4 * k as int + 4)
                            == vpre[nblock as int].subrange(4 * k as int, 4 * k as int + 4));
                    } else {
                        assert(vn[nblock as int].subrange(4 * i as int, 4 * i as int + 4) == bytes@);
                    }
                }
            }
        }
        i = i + 1;
    }
    proof {
        assert(spec_ctz(index) + 1 == skips);
    }
    Ok(4 * skips)
}

/// The blocks whose contents extending a file of `size` bytes ending in
/// `head` reads all appear in `in_use`: the last block when it is copied,
/// else the blocks its pointers are collected from.
pub open spec fn extend_reads_in(
    b: Seq<Seq<u8>>,
    block_size: u32,
    head: u32,
    size: u32,
    in_use: Seq<LfsBlock>,
) -> bool {
    size > 0 ==> {
        let (idx, o) = ctz_index_spec(block_size, (size - 1) as u32);
        let noff = ((o + 1) % 0x1_0000_0000) as u32;
        if noff != block_size {
            in_use.contains(head)
        } else {
            forall|j: nat|
                j < spec_ctz((idx + 1) as u32) ==> in_use.contains(#[trigger] ctz_ptr_seq(b, head, j))
        }
    }
}

/// The blocks of `in_use` hold the same in `a` as in `b`.
pub open spec fn same_in_use(a: Seq<Seq<u8>>, b: Seq<Seq<u8>>, in_use: Seq<LfsBlock>) -> bool {
    forall|j: int| 0 <= j < in_use.len() ==> #[trigger] a[in_use[j] as int] == b[in_use[j] as int]
}

/// Every part of the filesystem but the device, the read cache and the
/// allocator's window is the same.
pub open spec fn same_but_alloc<D: BlockDevice>(a: Lfs<D>, b: Lfs<D>) -> bool {
    &&& a.cfg == b.cfg
    &&& a.pcache == b.pcache
    &&& a.root == b.root
    &&& a.mlist == b.mlist
    &&& a.seed == b.seed
    &&& a.gstate == b.gstate
    &&& a.gdisk == b.gdisk
    &&& a.gdelta == b.gdelta
    &&& a.block_count == b.block_count
    &&& a.name_max == b.name_max
    &&& a.file_max == b.file_max
    &&& a.attr_max == b.attr_max
    &&& a.inline_max == b.inline_max
}

/// Collecting pointers reads the same on two devices that agree on the
/// blocks it reads.
proof fn lemma_ptr_seq_agree(a: Seq<Seq<u8>>, b: Seq<Seq<u8>>, head: u32, n: nat, in_use: Seq<LfsBlock>)
    requires
        same_in_use(a, b, in_use),
        forall|j: nat| j < n ==> in_use.contains(#[trigger] ctz_ptr_seq(b, head, j)),
    ensures
        forall|j: nat| j <= n ==> #[trigger] ctz_ptr_seq(a, head, j) == ctz_ptr_seq(b, head, j),
    decreases n,
{
    if n > 0 {
        lemma_ptr_seq_agree(a, b, head, (n - 1) as nat, in_use);
        let p = ctz_ptr_seq(b, head, (n - 1) as nat);
        assert(in_use.contains(p));
        let w = choose|w: int| 0 <= w < in_use.len() && in_use[w] == p;
        assert(a[in_use[w] as int] == b[in_use[w] as int]);
        assert forall|j: nat| j <= n implies #[trigger] ctz_ptr_seq(a, head, j) == ctz_ptr_seq(b, head, j) by {
            if j == n {
                assert(ctz_ptr_seq(a, head, (n - 1) as nat) == p);
            }
        }
    }
}

/// Appends a block to the skip-list of a file of `size` bytes whose last
/// block is `head`: allocates a block (from the blocks not in `in_use`),
/// erases it, and either copies the partial last block into it or writes
/// its pointers after a full one. A block that goes bad is dropped and
/// another one allocated.
pub fn lfs_ctz_extend<D: BlockDevice>(
    lfs: &mut Lfs<D>,
    in_use: &[LfsBlock],
    pcache: &mut LfsCache,
    head: LfsBlock,
    size: LfsSize,
    block: &mut LfsBlock,
    off: &mut LfsOff,
) -> (r: Result<(), LfsError>)
    requires
        old(lfs).caches_ok(),
        old(lfs).cfg.block_size >= 128,
        lookahead_ok(old(lfs).lookahead, old(lfs).cfg.lookahead_size, old(lfs).block_count),
        0 < old(lfs).cfg.lookahead_size <= 0x1000_0000,
        forall|i: int| 0 <= i < in_use@.len() ==> #[trigger] in_use@[i] < old(lfs).block_count,
        pcache_ok(old(lfs).cfg, old(lfs).bd.blocks(), *old(pcache)),
        old(pcache).block == LFS_BLOCK_NULL,
    ensures
        final(lfs).caches_ok(),
        same_but_alloc(*final(lfs), *old(lfs)),
        final(lfs).bd.blocks().len() == old(lfs).bd.blocks().len(),
        lookahead_ok(final(lfs).lookahead, final(lfs).cfg.lookahead_size, final(lfs).block_count),
        final(pcache).buffer@.len() == old(lfs).cfg.cache_size,
        r != Err::<(), LfsError>(LfsError::Corrupt),
        marks_all(old(lfs).lookahead, old(lfs).block_count, in_use@) ==> {
            &&& marks_all(final(lfs).lookahead, final(lfs).block_count, in_use@)
            &&& same_in_use(final(lfs).bd.blocks(), old(lfs).bd.blocks(), in_use@)
        },
        r is Ok ==> {
            let nb = *final(block);
            let v = overlay(final(lfs).bd.blocks(), *final(pcache));
            &&& nb < old(lfs).block_count
            &&& pcache_ok(final(lfs).cfg, final(lfs).bd.blocks(), *final(pcache))
            &&& (final(pcache).block == LFS_BLOCK_NULL || final(pcache).block == nb)
            &&& *final(off) == extend_off(old(lfs).cfg.block_size, size)
            &&& write_window(final(lfs).cfg, *final(pcache), nb, *final(off))
            &&& la_off(final(lfs).lookahead.start, final(lfs).block_count, nb) < final(lfs).lookahead.next
            &&& marks_all(old(lfs).lookahead, old(lfs).block_count, in_use@) ==> {
                &&& !in_use@.contains(nb)
                &&& same_in_use(v, old(lfs).bd.blocks(), in_use@)
                &&& extend_reads_in(old(lfs).bd.blocks(), old(lfs).cfg.block_size, head, size, in_use@)
                    ==> extended_ok(old(lfs).bd.blocks(), v, old(lfs).cfg.block_size, head, size, nb)
            }
        },
        final(lfs).bd.reads_ok() == old(lfs).bd.reads_ok(),
        final(lfs).bd.writes_ok() == old(lfs).bd.writes_ok(),
        old(lfs).bd.reads_ok() && old(lfs).bd.writes_ok() && marks_all(old(lfs).lookahead, old(lfs).block_count, in_use@)
            && extend_reads_in(old(lfs).bd.blocks(), old(lfs).cfg.block_size, head, size, in_use@) && r is Err ==> r
            == Err::<(), LfsError>(LfsError::NoSpc) && final(lfs).lookahead.ckpoint == 0,
{
    let ghost b0 = lfs.bd.blocks();
    let ghost la0 = lfs.lookahead;
    let ghost bc = lfs.block_count;
    let ghost m = marks_all(la0, bc, in_use@);
    loop
        invariant
            lfs.caches_ok(),
            same_but_alloc(*lfs, *old(lfs)),
            b0 == old(lfs).bd.blocks(),
            la0 == old(lfs).lookahead,
            bc == old(lfs).block_count,
            m == marks_all(la0, bc, in_use@),
            lfs.bd.blocks().len() == b0.len(),
            lfs.cfg.block_size >= 128,
            lookahead_ok(lfs.lookahead, lfs.cfg.lookahead_size, lfs.block_count),
            0 < lfs.cfg.lookahead_size <= 0x1000_0000,
            forall|i: int| 0 <= i < in_use@.len() ==> #[trigger] in_use@[i] < bc,
            pcache_ok(lfs.cfg, lfs.bd.blocks(), *pcache),
            pcache.block == LFS_BLOCK_NULL,
            m ==> marks_all(lfs.lookahead, bc, in_use@),
            m ==> same_in_use(lfs.bd.blocks(), b0, in_use@),
            lfs.bd.reads_ok() == old(lfs).bd.reads_ok(),
            lfs.bd.writes_ok() == old(lfs).bd.writes_ok(),
        decreases lfs.lookahead.ckpoint,
    {
        let nblock = lfs_alloc(lfs, in_use)?;
        let ghost bt = lfs.bd.blocks();
        let ghost ck = lfs.lookahead.ckpoint;
        proof {
            if m && extend_reads_in(b0, lfs.cfg.block_size, head, size, in_use@) && size > 0 {
                let (idx, o2) = ctz_index_spec(lfs.cfg.block_size, (size - 1) as u32);
                let noff = ((o2 + 1) % 0x1_0000_0000) as u32;
                if noff != lfs.cfg.block_size {
                    let w = choose|w: int| 0 <= w < in_use@.len() && in_use@[w] == head;
                } else {
                    let n = spec_ctz((idx + 1) as u32);
                    lemma_ptr_seq_agree(bt, b0, head, n, in_use@);
                    assert forall|j: nat| j < n implies #[trigger] ctz_ptr_seq(bt, head, j) < bc && ctz_ptr_seq(bt, head, j)
                        != nblock by {
                        assert(in_use@.contains(ctz_ptr_seq(b0, head, j)));
                        let w = choose|w: int| 0 <= w < in_use@.len() && in_use@[w] == ctz_ptr_seq(b0, head, j);
                    }
                }
                assert(extend_reads_fit(bt, lfs.cfg.block_size, head, size, bc, nblock));
            }
        }
        let res = lfs_ctz_extend_try(lfs, pcache, nblock, head, size);
        proof {
            if m {
                assert forall|j: int| 0 <= j < in_use@.len() implies #[trigger] lfs.bd.blocks()[in_use@[j] as int]
                    == b0[in_use@[j] as int] by {
                    assert(in_use@.contains(in_use@[j]));
                    assert(in_use@[j] != nblock);
                    assert(bt[in_use@[j] as int] == b0[in_use@[j] as int]);
                }
            }
        }
        match res {
            Ok(o) => {
                *block = nblock;
                *off = o;
                proof {
                    let v = overlay(lfs.bd.blocks(), *pcache);
                    if m {
                        assert forall|j: int| 0 <= j < in_use@.len() implies #[trigger] v[in_use@[j] as int]
                            == b0[in_use@[j] as int] by {
                            assert(in_use@.contains(in_use@[j]));
                            assert(in_use@[j] != nblock);
                            assert(bt[in_use@[j] as int] == b0[in_use@[j] as int]);
                        }
                        if extend_reads_in(b0, lfs.cfg.block_size, head, size, in_use@) && size > 0 {
                            let (idx, o2) = ctz_index_spec(lfs.cfg.block_size, (size - 1) as u32);
                            let noff = ((o2 + 1) % 0x1_0000_0000) as u32;
                            if noff != lfs.cfg.block_size {
                                let w = choose|w: int| 0 <= w < in_use@.len() && in_use@[w] == head;
                                assert(bt[in_use@[w] as int] == b0[in_use@[w] as int]);
                                assert(head != nblock);
                            } else {
                                let n = spec_ctz((idx + 1) as u32);
                                lemma_ptr_seq_agree(bt, b0, head, n, in_use@);
                                assert forall|j: nat| j < n implies #[trigger] ctz_ptr_seq(bt, head, j) != nblock by {
                                    assert(in_use@.contains(ctz_ptr_seq(b0, head, j)));
                                }
                                assert(ptrs_avoid(bt, head, n, nblock));
                                assert forall|k: nat| k < n + 1 implies #[trigger] le32_of(v[nblock as int].subrange(
                                    4 * k as int,
                                    4 * k as int + 4,
                                )) == ctz_ptr_seq(b0, head, k) by {
                                    assert(ctz_ptr_seq(bt, head, k) == ctz_ptr_seq(b0, head, k));
                                }
                            }
                        }
                    }
                }
                return Ok(());
            },
            Err(LfsError::Corrupt) => {
                lfs_cache_zero(pcache);
                lfs_cache_drop(&mut lfs.rcache);
                proof {
                    assert(lfs.lookahead.ckpoint == ck);
                }
            },
            Err(e) => {
                lfs_cache_drop(&mut lfs.rcache);
                return Err(e);
            },
        }
    }
}

/// A multiple of `2^k` that is positive has at least `k` trailing zeros.
proof fn lemma_ctz_ge(i: u32, k: nat)
    requires
        i > 0,
        (i as int) % (exp2(k) as int) == 0,
    ensures
        spec_ctz(i) >= k,
    decreases k,
{
    if k > 0 {
        let e = exp2((k - 1) as nat) as int;
        lemma_exp2_pos((k - 1) as nat);
        assert(exp2(k) == 2 * e);
        vstd::arithmetic::div_mod::lemma_fundamental_div_mod(i as int, 2 * e);
        let q = (i as int) / (2 * e);
        assert(i == (2 * e) * q);
        assert(i % 2 == 0 && i / 2 == e * q && (e * q) % e == 0) by (nonlinear_arith)
            requires
                i == (2 * e) * q,
                e > 0,
        {
            vstd::arithmetic::div_mod::lemma_mod_multiples_basic(q, e);
            vstd::arithmetic::mul::lemma_mul_is_commutative(q, e);
        }
        lemma_ctz_ge((i / 2) as u32, (k - 1) as nat);
    }
}

/// A positive number is a multiple of two to its count of trailing zeros.
proof fn lemma_ctz_divides(n: u32)
    requires
        n > 0,
    ensures
        (n as int) % (exp2(spec_ctz(n)) as int) == 0,
    decreases n,
{
    if n % 2 == 0 {
        let h = (n / 2) as u32;
        lemma_ctz_divides(h);
        let e = exp2(spec_ctz(h)) as int;
        lemma_exp2_pos(spec_ctz(h));
        vstd::arithmetic::div_mod::lemma_fundamental_div_mod(h as int, e);
        let q = (h as int) / e;
        assert(exp2(spec_ctz(n)) == 2 * e);
        assert(n == (q * 2) * e) by (nonlinear_arith)
            requires
                h == e * q + 0,
                n == 2 * h,
        ;
        vstd::arithmetic::div_mod::lemma_mod_multiples_basic(q, 2 * e);
        assert((q * 2) * e == q * (2 * e)) by (nonlinear_arith);
    } else {
        assert(exp2(0) == 1);
    }
}

/// `2^a` divides `2^b` when `a <= b`.
proof fn lemma_exp2_divides(a: nat, b: nat)
    requires
        a <= b,
    ensures
        (exp2(b) as int) % (exp2(a) as int) == 0,
    decreases b,
{
    lemma_exp2_pos(a);
    if a == b {
        vstd::arithmetic::div_mod::lemma_mod_multiples_basic(1, exp2(a) as int);
    } else {
        lemma_exp2_divides(a, (b - 1) as nat);
        lemma_exp2_pos((b - 1) as nat);
        vstd::arithmetic::div_mod::lemma_mod_multiples_basic(2, exp2((b - 1) as nat) as int);
        lemma_divides_trans(exp2(a) as int, exp2((b - 1) as nat) as int, exp2(b) as int);
    }
}

/// In a well-formed skip-list of `idx + 1` blocks, pointer `k` of the block
/// appended after its last one names the block `2^k` back from the new one.
pub proof fn lemma_ctz_ptr_seq_chain(l: Seq<Seq<u8>>, chain: Seq<u32>, idx: u32, k: nat)
    requires
        ctz_chain_ok(l, chain, idx as int),
        idx < 0xffff_fffe,
        k <= spec_ctz((idx + 1) as u32),
    ensures
        exp2(k) <= idx + 1,
        ctz_ptr_seq(l, chain[idx as int], k) == chain[idx + 1 - exp2(k)],
    decreases k,
{
    let n = (idx + 1) as u32;
    lemma_exp2_ctz_le(n);
    lemma_exp2_monotone(k, spec_ctz(n));
    if k > 0 {
        lemma_ctz_ptr_seq_chain(l, chain, idx, (k - 1) as nat);
        let e = exp2((k - 1) as nat) as int;
        lemma_exp2_pos((k - 1) as nat);
        assert(exp2(k) == 2 * e);
        lemma_ctz_divides(n);
        lemma_exp2_divides(k, spec_ctz(n));
        lemma_exp2_pos(k);
        lemma_divides_trans(exp2(k) as int, exp2(spec_ctz(n)) as int, n as int);
        vstd::arithmetic::div_mod::lemma_fundamental_div_mod(n as int, 2 * e);
        let q = (n as int) / (2 * e);
        let i = n - e;
        assert(i == (2 * q - 1) * e && q >= 1) by (nonlinear_arith)
            requires
                n == (2 * e) * q + 0,
                i == n - e,
                e > 0,
                n >= 2 * e,
        ;
        vstd::arithmetic::div_mod::lemma_mod_multiples_basic(2 * q - 1, e);
        lemma_ctz_ge(i as u32, (k - 1) as nat);
        assert(chain_link(l, chain, i as int, (k - 1) as int));
    } else {
        assert(exp2(0) == 1);
    }
}

/// Appending a block whose pointers are the ones extending collects keeps a
/// skip-list well formed, when the blocks already in it stay as they were.
pub proof fn lemma_ctz_extend_chain(
    l0: Seq<Seq<u8>>,
    l1: Seq<Seq<u8>>,
    chain: Seq<u32>,
    idx: u32,
    nb: u32,
)
    requires
        ctz_chain_ok(l0, chain, idx as int),
        chain.len() == idx + 1,
        idx < 0xffff_fffe,
        l1.len() == l0.len(),
        forall|i: int| 0 <= i <= idx ==> #[trigger] l1[chain[i] as int] == l0[chain[i] as int],
        nb < l1.len(),
        4 * (spec_ctz((idx + 1) as u32) + 1) <= l1[nb as int].len(),
        forall|k: nat|
            k <= spec_ctz((idx + 1) as u32) ==> #[trigger] le32_of(l1[nb as int].subrange(
                4 * k as int,
                4 * k as int + 4,
            )) == ctz_ptr_seq(l0, chain[idx as int], k),
    ensures
        ctz_chain_ok(l1, chain.push(nb), idx + 1),
{
    let c2 = chain.push(nb);
    let n = idx + 1;
    assert forall|i: int| 0 <= i <= n implies #[trigger] c2[i] < l1.len() by {
        if i < n {
            assert(c2[i] == chain[i]);
        }
    }
    assert forall|i: int, k: int|
        0 < i <= n && 0 <= k <= spec_ctz(i as u32) implies #[trigger] chain_link(l1, c2, i, k) by {
        if i < n {
            assert(c2[i] == chain[i]);
            assert(l1[chain[i] as int] == l0[chain[i] as int]);
            assert(chain_link(l0, chain, i, k));
            lemma_exp2_pos(k as nat);
            lemma_exp2_ctz_le(i as u32);
            lemma_exp2_monotone(k as nat, spec_ctz(i as u32));
            assert(c2[i - exp2(k as nat)] == chain[i - exp2(k as nat)]);
        } else {
            lemma_ctz_ptr_seq_chain(l0, chain, idx, k as nat);
            lemma_exp2_pos(k as nat);
            assert(le32_of(l1[nb as int].subrange(4 * k, 4 * k + 4)) == ctz_ptr_seq(l0, chain[idx as int], k as nat));
            assert(c2[i - exp2(k as nat)] == chain[i - exp2(k as nat)]);
        }
    }
}


/// The blocks met following pointer 0 from `head` down `n` levels: `head`
/// and the `n` blocks before it, newest first.
pub open spec fn index_chain(l: Seq<Seq<u8>>, head: u32, n: nat) -> Seq<u32>
    decreases n,
{
    if n == 0 {
        seq![head]
    } else {
        seq![head] + index_chain(l, ctz_ptr(l, head, 0), (n - 1) as nat)
    }
}

/// Lists the blocks of the skip-list of a file of `size` bytes whose last
/// block is `head`, from the last back to the first, following each
/// block's first pointer.
pub fn lfs_index_traverse<D: BlockDevice>(
    cfg: &LfsConfig,
    bd: &D,
    block_count: LfsSize,
    pcache: Option<&LfsCache>,
    rcache: &mut LfsCache,
    head: LfsBlock,
    size: LfsSize,
) -> (r: Result<Vec<LfsBlock>, LfsError>)
    requires
        cache_geometry_ok(*cfg),
        cfg.block_size >= 128,
        device_ok(*cfg, bd.blocks()),
        block_count == bd.blocks().len(),
        rcache_ok(*cfg, bd.blocks(), *old(rcache)),
        pcache matches Some(p) ==> pcache_ok(*cfg, bd.blocks(), *p),
    ensures
        rcache_ok(*cfg, bd.blocks(), *final(rcache)),
        (size == 0 || head == LFS_BLOCK_NULL) ==> (r matches Ok(v) && v@.len() == 0),
        size > 0 && head != LFS_BLOCK_NULL ==> (r matches Ok(v) ==> v@ == index_chain(
            logical(bd.blocks(), pcache),
            head,
            ctz_index_spec(cfg.block_size, (size - 1) as u32).0 as nat,
        )),
        bd.reads_ok() && size > 0 && (exists|c: Seq<u32>|
            ctz_chain_ok(
                logical(bd.blocks(), pcache),
                c,
                ctz_index_spec(cfg.block_size, (size - 1) as u32).0 as int,
            ) && #[trigger] c[ctz_index_spec(cfg.block_size, (size - 1) as u32).0 as int] == head) ==> r is Ok,
{
    let mut blocks: Vec<LfsBlock> = Vec::new();
    if size == 0 || head == LFS_BLOCK_NULL {
        return Ok(blocks);
    }
    let mut last = size - 1;
    let index = lfs_ctz_index(cfg, &mut last);
    let ghost l = logical(bd.blocks(), pcache);
    let ghost n0 = index as nat;
    let ghost has_chain = bd.reads_ok() && exists|c: Seq<u32>| ctz_chain_ok(l, c, n0 as int) && #[trigger] c[n0 as int] == head;
    let ghost chain0 = choose|c: Seq<u32>| ctz_chain_ok(l, c, n0 as int) && #[trigger] c[n0 as int] == head;
    let mut level = index;
    let mut h = head;
    blocks.push(h);
    proof {
        assert(blocks@ + index_chain(l, h, level as nat).drop_first() =~= index_chain(l, head, n0)) by {
            assert(index_chain(l, h, level as nat)[0] == h);
            assert(seq![head] + index_chain(l, h, level as nat).drop_first() =~= index_chain(l, h, level as nat));
        }
    }
    while level > 0
        invariant
            cache_geometry_ok(*cfg),
            device_ok(*cfg, bd.blocks()),
            block_count == bd.blocks().len(),
            rcache_ok(*cfg, bd.blocks(), *rcache),
            pcache matches Some(p) ==> pcache_ok(*cfg, bd.blocks(), *p),
            l == logical(bd.blocks(), pcache),
            n0 == ctz_index_spec(cfg.block_size, (size - 1) as u32).0 as nat,
            size > 0,
            head != LFS_BLOCK_NULL,
            level <= n0,
            blocks@.len() == n0 - level + 1,
            blocks@.last() == h,
            blocks@ + index_chain(l, h, level as nat).drop_first() == index_chain(l, head, n0),
            has_chain == (bd.reads_ok() && exists|c: Seq<u32>| ctz_chain_ok(l, c, n0 as int) && #[trigger] c[n0 as int] == head),
            has_chain ==> ctz_chain_ok(l, chain0, n0 as int) && h == chain0[level as int],
            cfg.block_size >= 128,
        decreases level,
    {
        proof {
            if has_chain {
                assert(chain_link(l, chain0, level as int, 0));
                assert(exp2(0) == 1);
                assert(l[h as int].len() == cfg.block_size);
            }
        }
        let dat = lfs_bd_read(cfg, bd, block_count, pcache, rcache, 4, h, 0, 4)?;
        let next = lfs_le32_decode(dat.as_slice(), 0);
        proof {
            assert(dat@.subrange(0, 4) =~= dat@);
            assert(next == ctz_ptr(l, h, 0));
            let rest = index_chain(l, next, (level - 1) as nat);
            assert(index_chain(l, h, level as nat) == seq![h] + rest);
            assert(index_chain(l, h, level as nat).drop_first() =~= rest);
            assert(rest[0] == next);
            assert(blocks@.push(next) + rest.drop_first() =~= blocks@ + rest);
        }
        blocks.push(next);
        h = next;
        level = level - 1;
    }
    proof {
        assert(index_chain(l, h, 0) == seq![h]);
        assert(index_chain(l, h, 0).drop_first() =~= Seq::<u32>::empty());
        assert(blocks@ + Seq::<u32>::empty() =~= blocks@);
    }
    Ok(blocks)
}

/// In a well-formed skip-list, following first pointers from its last
/// block meets every block of it, from the last back to the first.
pub proof fn lemma_index_traverse_chain(l: Seq<Seq<u8>>, chain: Seq<u32>, idx: u32, n: u32)
    requires
        ctz_chain_ok(l, chain, idx as int),
        n <= idx,
    ensures
        index_chain(l, chain[n as int], n as nat).len() == n + 1,
        forall|k: int| 0 <= k <= n ==> #[trigger] index_chain(l, chain[n as int], n as nat)[k] == chain[n - k],
    decreases n,
{
    if n > 0 {
        assert(spec_ctz(n) >= 0);
        assert(chain_link(l, chain, n as int, 0));
        assert(exp2(0) == 1);
        lemma_index_traverse_chain(l, chain, idx, (n - 1) as u32);
        let rest = index_chain(l, chain[n - 1], (n - 1) as nat);
        assert(index_chain(l, chain[n as int], n as nat) == seq![chain[n as int]] + rest);
        assert forall|k: int| 0 <= k <= n implies #[trigger] index_chain(l, chain[n as int], n as nat)[k]
            == chain[n - k] by {
            if k > 0 {
                assert(index_chain(l, chain[n as int], n as nat)[k] == rest[k - 1]);
            }
        }
    }
}

} // verus!
