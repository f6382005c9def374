//! The state of a mounted filesystem.
use vstd::prelude::*;
use crate::bd::{BlockDevice, cache_geometry_ok, device_ok, erased, pcache_ok, rcache_ok};
use crate::util::{lfs_min, spec_npw2};
use crate::pair::{lfs_gstate_hasorphans, lfs_pair_issync, spec_gstate_hasmove, spec_pair_issync, spec_pair_overlap};
use crate::tag::{lfs_tag_isvalid, spec_tag_id, spec_tag_isvalid, spec_tag_size};
use crate::allocator::lfs_alloc_drop;
use crate::defines::{
    LfsBlock, LfsCache, LfsConfig, LfsError, LfsGstate, LfsLookahead, LfsMdir, LfsMlist, LfsSize,
    LfsSuperblock,
    LfsTortoise, LFS_ATTR_MAX, LFS_BLOCK_NULL, LFS_DISK_VERSION, LFS_DISK_VERSION_MAJOR,
    LFS_DISK_VERSION_MINOR, LFS_FILE_MAX, LFS_NAME_MAX,
};

verus! {

/// A littlefs instance on a block device.
pub struct Lfs<D: BlockDevice> {
    pub cfg: LfsConfig,
    pub bd: D,
    pub rcache: LfsCache,
    pub pcache: LfsCache,
    pub root: [LfsBlock; 2],
    pub mlist: Vec<LfsMlist>,
    pub seed: u32,
    pub gstate: LfsGstate,
    pub gdisk: LfsGstate,
    pub gdelta: LfsGstate,
    pub lookahead: LfsLookahead,
    pub block_count: LfsSize,
    pub name_max: LfsSize,
    pub file_max: LfsSize,
    pub attr_max: LfsSize,
    pub inline_max: LfsSize,
}

impl<D: BlockDevice> Lfs<D> {
    /// The caches and the device agree with the configuration.
    pub open spec fn caches_ok(&self) -> bool {
        &&& cache_geometry_ok(self.cfg)
        &&& device_ok(self.cfg, self.bd.blocks())
        &&& self.block_count == self.bd.blocks().len()
        &&& rcache_ok(self.cfg, self.bd.blocks(), self.rcache)
        &&& pcache_ok(self.cfg, self.bd.blocks(), self.pcache)
    }
}


/// Every part of the filesystem but its read cache is the same.
pub open spec fn same_but_rcache<D: BlockDevice>(a: Lfs<D>, b: Lfs<D>) -> bool {
    &&& a.cfg == b.cfg
    &&& a.bd == b.bd
    &&& a.pcache == b.pcache
    &&& a.root == b.root
    &&& a.mlist == b.mlist
    &&& a.seed == b.seed
    &&& a.gstate == b.gstate
    &&& a.gdisk == b.gdisk
    &&& a.gdelta == b.gdelta
    &&& a.lookahead == b.lookahead
    &&& a.block_count == b.block_count
    &&& a.name_max == b.name_max
    &&& a.file_max == b.file_max
    &&& a.attr_max == b.attr_max
    &&& a.inline_max == b.inline_max
}

/// Every part of the filesystem but the global state is the same.
pub open spec fn same_but_gstate<D: BlockDevice>(a: Lfs<D>, b: Lfs<D>) -> bool {
    &&& a.cfg == b.cfg
    &&& a.bd == b.bd
    &&& a.rcache == b.rcache
    &&& a.pcache == b.pcache
    &&& a.root == b.root
    &&& a.mlist == b.mlist
    &&& a.seed == b.seed
    &&& a.gdisk == b.gdisk
    &&& a.gdelta == b.gdelta
    &&& a.lookahead == b.lookahead
    &&& a.block_count == b.block_count
    &&& a.name_max == b.name_max
    &&& a.file_max == b.file_max
    &&& a.attr_max == b.attr_max
    &&& a.inline_max == b.inline_max
}

/// The global tag after adding `orphans` to its orphan count: the sum wraps
/// around the word, and the top bit then says whether any orphans remain.
pub open spec fn preporphans_tag(tag: u32, orphans: i8) -> u32 {
    let t = ((tag as int + orphans as int) % 0x1_0000_0000) as u32;
    if spec_tag_size(t) != 0 {
        (t & 0x7fff_ffffu32) | 0x8000_0000u32
    } else {
        t & 0x7fff_ffffu32
    }
}

/// Adds `orphans` (which may be negative) to the count of orphans in the
/// global state.
pub fn lfs_fs_preporphans<D: BlockDevice>(lfs: &mut Lfs<D>, orphans: i8) -> (r: i32)
    requires
        (old(lfs).gstate.tag & 0x1ffu32) > 0 || orphans >= 0,
        (old(lfs).gstate.tag & 0x1ffu32) < 0x1ff || orphans <= 0,
    ensures
        r == 0,
        final(lfs).gstate.tag == preporphans_tag(old(lfs).gstate.tag, orphans),
        final(lfs).gstate.pair == old(lfs).gstate.pair,
        same_but_gstate(*final(lfs), *old(lfs)),
{
    #[verifier::truncate]
    let inc = orphans as i32 as u32;
    let tag = lfs.gstate.tag;
    proof {
        assert(inc as int == (if orphans < 0 { orphans + 0x1_0000_0000 } else { orphans as int }))
            by (bit_vector)
            requires
                inc == orphans as i32 as u32,
        ;
        let s: int = tag as int + orphans as int;
        let m: int = 0x1_0000_0000;
        if s < 0 {
            vstd::arithmetic::div_mod::lemma_mod_multiples_vanish(1, s, m);
            vstd::arithmetic::div_mod::lemma_small_mod((s + m) as nat, m as nat);
        } else if s < m {
            vstd::arithmetic::div_mod::lemma_small_mod(s as nat, m as nat);
        } else {
            vstd::arithmetic::div_mod::lemma_mod_sub_multiples_vanish(s, m);
            vstd::arithmetic::div_mod::lemma_small_mod((s - m) as nat, m as nat);
        }
        assert(tag.wrapping_add(inc) == (s % m) as u32);
    }
    let t = tag.wrapping_add(inc);
    lfs.gstate.tag = t;
    let has = lfs_gstate_hasorphans(&lfs.gstate);
    let bit: u32 = if has { 0x8000_0000 } else { 0 };
    proof {
        assert(t & 0x7fff_ffffu32 | 0u32 == t & 0x7fff_ffffu32) by (bit_vector);
    }
    lfs.gstate.tag = (t & 0x7fff_ffff) | bit;
    0
}


/// The count of orphans moves by `orphans` and the other bits of the global
/// tag stay, when the count neither drops below zero nor passes its nine
/// bits; the top bit then tells whether any orphans remain.
pub proof fn lemma_preporphans_count(tag: u32, orphans: i8)
    requires
        0 <= (tag & 0x1ffu32) + orphans <= 0x1ff,
    ensures
        preporphans_tag(tag, orphans) & 0x1ffu32 == (tag & 0x1ffu32) + orphans,
        preporphans_tag(tag, orphans) & 0x7fff_fe00u32 == tag & 0x7fff_fe00u32,
        (preporphans_tag(tag, orphans) >= 0x8000_0000) == (spec_tag_size(preporphans_tag(tag, orphans)) != 0),
{
    let m: int = 0x1_0000_0000;
    assert((tag as int) + (orphans as int) >= 0 && (tag as int) + (orphans as int) < 0x1_0000_0000) by (bit_vector)
        requires
            0 <= (tag & 0x1ffu32) + orphans <= 0x1ff,
    ;
    let s: int = tag as int + orphans as int;
    vstd::arithmetic::div_mod::lemma_small_mod(s as nat, m as nat);
    let t: u32 = s as u32;
    assert(t & 0x1ffu32 == (tag & 0x1ffu32) + orphans && t & 0x7fff_fe00u32 == tag & 0x7fff_fe00u32)
        by (bit_vector)
        requires
            t == tag + orphans,
            0 <= (tag & 0x1ffu32) + orphans <= 0x1ff,
    ;
    let p = preporphans_tag(tag, orphans);
    if spec_tag_size(t) != 0 {
        assert(p == (t & 0x7fff_ffffu32) | 0x8000_0000u32);
        assert(p & 0x1ffu32 == t & 0x1ffu32 && p & 0x7fff_fe00u32 == t & 0x7fff_fe00u32 && p >= 0x8000_0000
            && p % 0x400 == t % 0x400) by (bit_vector)
            requires
                p == (t & 0x7fff_ffffu32) | 0x8000_0000u32,
        ;
    } else {
        assert(p == t & 0x7fff_ffffu32);
        assert(p & 0x1ffu32 == t & 0x1ffu32 && p & 0x7fff_fe00u32 == t & 0x7fff_fe00u32 && p < 0x8000_0000
            && p % 0x400 == t % 0x400) by (bit_vector)
            requires
                p == t & 0x7fff_ffffu32,
        ;
    }
}

/// The global tag after setting whether the superblock needs rewriting.
pub open spec fn prepsuperblock_tag(tag: u32, needssuperblock: bool) -> u32 {
    (tag & 0xffff_fdffu32) | (if needssuperblock { 0x200u32 } else { 0u32 })
}

/// Records in the global state whether the superblock needs rewriting.
pub fn lfs_fs_prepsuperblock<D: BlockDevice>(lfs: &mut Lfs<D>, needssuperblock: bool)
    ensures
        final(lfs).gstate.tag == prepsuperblock_tag(old(lfs).gstate.tag, needssuperblock),
        final(lfs).gstate.pair == old(lfs).gstate.pair,
        same_but_gstate(*final(lfs), *old(lfs)),
{
    let bit: u32 = if needssuperblock { 1 } else { 0 };
    let tag = lfs.gstate.tag;
    proof {
        assert((tag & !0x200u32) == (tag & 0xffff_fdffu32) && (1u32 << 9u32) == 0x200u32 && (0u32 << 9u32)
            == 0u32) by (bit_vector);
    }
    lfs.gstate.tag = (tag & !0x200u32) | (bit << 9u32);
}

/// Setting the superblock flag is what the global state then reports, and
/// the orphan count stays.
pub proof fn lemma_prepsuperblock(tag: u32, needssuperblock: bool)
    ensures
        (spec_tag_size(prepsuperblock_tag(tag, needssuperblock)) >= 0x200) == needssuperblock,
        prepsuperblock_tag(tag, needssuperblock) & 0x1ffu32 == tag & 0x1ffu32,
        prepsuperblock_tag(tag, needssuperblock) & 0xffff_fc00u32 == tag & 0xffff_fc00u32,
{
    let p = prepsuperblock_tag(tag, needssuperblock);
    let n = needssuperblock;
    assert((p % 0x400 >= 0x200) == n && p & 0x1ffu32 == tag & 0x1ffu32 && p & 0xffff_fc00u32 == tag
        & 0xffff_fc00u32) by (bit_vector)
        requires
            p == (tag & 0xffff_fdffu32) | (if n { 0x200u32 } else { 0u32 }),
    ;
}

/// The global tag after recording a pending move of entry `id`, or clearing
/// it when `id` is 0x3ff.
pub open spec fn prepmove_tag(tag: u32, id: u16) -> u32 {
    (tag & 0x8000_03ffu32) | (if id != 0x3ff {
        0x4ff0_0000u32 | ((id as u32) << 10u32)
    } else {
        0u32
    })
}

/// Records in the global state a pending move of entry `id` of the metadata
/// pair `pair`, or clears it when `id` is 0x3ff.
pub fn lfs_fs_prepmove<D: BlockDevice>(lfs: &mut Lfs<D>, id: u16, pair: [LfsBlock; 2])
    ensures
        final(lfs).gstate.tag == prepmove_tag(old(lfs).gstate.tag, id),
        final(lfs).gstate.pair == (if id != 0x3ff { pair } else { [0u32, 0u32] }),
        same_but_gstate(*final(lfs), *old(lfs)),
{
    let tag = lfs.gstate.tag;
    let mask: u32 = (0x7ffu32 << 20u32) | (0x3ffu32 << 10u32);
    let mv: u32 = if id != 0x3ff { (0x4ffu32 << 20u32) | ((id as u32) << 10u32) } else { 0 };
    proof {
        assert(((0x7ffu32 << 20u32) | (0x3ffu32 << 10u32)) == 0x7fff_fc00u32 && !0x7fff_fc00u32
            == 0x8000_03ffu32) by (bit_vector);
        if id != 0x3ff {
            let i = id as u32;
            assert(((0x4ffu32 << 20u32) | (i << 10u32)) == (0x4ff0_0000u32 | (i << 10u32))) by (bit_vector);
        }
    }
    lfs.gstate.tag = (tag & !mask) | mv;
    if id != 0x3ff {
        lfs.gstate.pair = pair;
    } else {
        lfs.gstate.pair = [0, 0];
    }
}

/// A recorded move is reported as pending in its own pair, with its entry,
/// and clearing it leaves no move pending.
pub proof fn lemma_prepmove(tag: u32, id: u16, pair: [LfsBlock; 2])
    ensures
        id < 0x3ff ==> {
            let g = LfsGstate { tag: prepmove_tag(tag, id), pair: pair };
            &&& spec_gstate_hasmove(g)
            &&& spec_pair_overlap(g.pair, pair)
            &&& spec_tag_id(g.tag) == id
            &&& spec_tag_size(g.tag) == spec_tag_size(tag)
        },
        id == 0x3ff ==> !spec_gstate_hasmove(LfsGstate { tag: prepmove_tag(tag, id), pair: [0u32, 0u32] }),
{
    let p = prepmove_tag(tag, id);
    let i = id as u32;
    assert((i < 0x3ff ==> (p / 0x1000_0000u32) % 8 != 0 && (p / 0x400) % 0x400 == i && p % 0x400 == tag % 0x400)
        && (i == 0x3ff ==> (p / 0x1000_0000u32) % 8 == 0)) by (bit_vector)
        requires
            p == (tag & 0x8000_03ffu32) | (if i != 0x3ff { 0x4ff0_0000u32 | (i << 10u32) } else { 0u32 }),
            i < 0x10000,
    ;
}

/// The on-disk version this instance writes: the configured one, or the
/// newest when none is configured.
pub open spec fn disk_version_spec(cfg: LfsConfig) -> u32 {
    if cfg.disk_version != 0 {
        cfg.disk_version
    } else {
        LFS_DISK_VERSION
    }
}

/// The on-disk version this instance writes.
pub fn lfs_fs_disk_version<D: BlockDevice>(lfs: &Lfs<D>) -> (v: u32)
    ensures
        v == disk_version_spec(lfs.cfg),
{
    if lfs.cfg.disk_version != 0 {
        lfs.cfg.disk_version
    } else {
        LFS_DISK_VERSION
    }
}

/// The major part of the on-disk version.
pub fn lfs_fs_disk_version_major<D: BlockDevice>(lfs: &Lfs<D>) -> (v: u16)
    ensures
        v == disk_version_spec(lfs.cfg) / 0x10000,
{
    let d = lfs_fs_disk_version(lfs);
    proof {
        assert((0xffffu32 & (d >> 16u32)) == d / 0x10000) by (bit_vector);
    }
    (0xffff & (d >> 16)) as u16
}

/// The minor part of the on-disk version.
pub fn lfs_fs_disk_version_minor<D: BlockDevice>(lfs: &Lfs<D>) -> (v: u16)
    ensures
        v == disk_version_spec(lfs.cfg) % 0x10000,
{
    let d = lfs_fs_disk_version(lfs);
    proof {
        assert((0xffffu32 & d) == d % 0x10000) by (bit_vector);
    }
    (0xffff & d) as u16
}

/// One step of Brent's cycle detection over the tail list of metadata
/// pairs: finding the pair remembered by the tortoise again means a cycle;
/// otherwise the tortoise moves up to the current pair each time the
/// period runs out, and the period doubles.
pub fn lfs_tortoise_detectcycles(dir: &LfsMdir, tortoise: &mut LfsTortoise) -> (r: Result<(), LfsError>)
    requires
        old(tortoise).i < u32::MAX,
        old(tortoise).i == old(tortoise).period ==> old(tortoise).period <= 0x7fff_ffff,
    ensures
        spec_pair_issync(dir.tail, old(tortoise).pair) ==> {
            &&& r == Err::<(), LfsError>(LfsError::Corrupt)
            &&& *final(tortoise) == *old(tortoise)
        },
        !spec_pair_issync(dir.tail, old(tortoise).pair) ==> {
            &&& r is Ok
            &&& old(tortoise).i == old(tortoise).period ==> {
                &&& final(tortoise).pair == dir.tail
                &&& final(tortoise).i == 1
                &&& final(tortoise).period == 2 * old(tortoise).period
            }
            &&& old(tortoise).i != old(tortoise).period ==> {
                &&& final(tortoise).pair == old(tortoise).pair
                &&& final(tortoise).i == old(tortoise).i + 1
                &&& final(tortoise).period == old(tortoise).period
            }
        },
{
    if lfs_pair_issync(&dir.tail, &tortoise.pair) {
        return Err(LfsError::Corrupt);
    }
    if tortoise.i == tortoise.period {
        tortoise.pair[0] = dir.tail[0];
        tortoise.pair[1] = dir.tail[1];
        tortoise.i = 0;
        tortoise.period = tortoise.period * 2;
    }
    tortoise.i = tortoise.i + 1;
    proof {
        assert(tortoise.pair@ =~= dir.tail@ || tortoise.pair == old(tortoise).pair);
    }
    Ok(())
}


/// The configuration checks a filesystem instance makes before it starts.
pub open spec fn config_ok(cfg: LfsConfig) -> bool {
    &&& cfg.disk_version != 0 ==> (cfg.disk_version / 0x10000 == LFS_DISK_VERSION_MAJOR
        && cfg.disk_version % 0x10000 <= LFS_DISK_VERSION_MINOR)
    &&& cfg.read_size != 0
    &&& cfg.prog_size != 0
    &&& cfg.cache_size != 0
    &&& cfg.cache_size % cfg.read_size == 0
    &&& cfg.cache_size % cfg.prog_size == 0
    &&& cfg.block_size % cfg.cache_size == 0
    &&& cfg.block_size >= 128
    &&& 4 * spec_npw2((0xffff_ffffu32 / ((cfg.block_size - 8) as u32)) as u32) <= cfg.block_size
    &&& cfg.block_cycles != 0
    &&& (cfg.compact_thresh == 0 || cfg.compact_thresh >= cfg.block_size / 2)
    &&& (cfg.compact_thresh == u32::MAX || cfg.compact_thresh <= cfg.block_size)
    &&& cfg.metadata_max != 0 ==> (cfg.metadata_max % cfg.read_size == 0 && cfg.metadata_max
        % cfg.prog_size == 0 && cfg.block_size % cfg.metadata_max == 0)
    &&& cfg.lookahead_size > 0
    &&& cfg.name_max <= LFS_NAME_MAX
    &&& cfg.file_max <= LFS_FILE_MAX
    &&& cfg.attr_max <= LFS_ATTR_MAX
}

/// The largest inline file: none when configured as all ones, the
/// configured size when set, else what fits the cache, an attribute and an
/// eighth of a metadata block.
pub open spec fn inline_max_spec(cfg: LfsConfig, attr_max: u32) -> u32 {
    if cfg.inline_max == u32::MAX {
        0
    } else if cfg.inline_max == 0 {
        let m = if cfg.metadata_max != 0 { cfg.metadata_max } else { cfg.block_size };
        let a = if attr_max < m / 8 { attr_max } else { (m / 8) as u32 };
        if cfg.cache_size < a { cfg.cache_size } else { a }
    } else {
        cfg.inline_max
    }
}

/// A global state with nothing pending.
pub open spec fn gstate_zero(g: LfsGstate) -> bool {
    g.tag == 0 && g.pair[0] == 0 && g.pair[1] == 0
}

/// `n` zero bytes.
fn zeroed(n: usize) -> (v: Vec<u8>)
    ensures
        v@ == Seq::new(n as nat, |j: int| 0u8),
{
    let mut v: Vec<u8> = Vec::new();
    let mut i: usize = 0;
    while i < n
        invariant
            i <= n,
            v@ == Seq::new(i as nat, |j: int| 0u8),
        decreases n - i,
    {
        v.push(0);
        i = i + 1;
        proof {
            assert(v@ =~= Seq::new(i as nat, |j: int| 0u8));
        }
    }
    v
}

/// Sets up a filesystem instance on `bd` with configuration `cfg`: empty
/// caches, the size limits the configuration gives or the defaults, and no
/// pending global state.
pub fn lfs_init<D: BlockDevice>(bd: D, cfg: &LfsConfig) -> (lfs: Lfs<D>)
    requires
        config_ok(*cfg),
    ensures
        lfs.cfg == *cfg,
        lfs.bd == bd,
        lfs.block_count == cfg.block_count,
        lfs.rcache.block == LFS_BLOCK_NULL,
        lfs.pcache.block == LFS_BLOCK_NULL,
        lfs.rcache.buffer@ == Seq::new(cfg.cache_size as nat, |j: int| 0xffu8),
        lfs.pcache.buffer@ == Seq::new(cfg.cache_size as nat, |j: int| 0xffu8),
        lfs.pcache.size == 0,
        lfs.lookahead.buffer@.len() == cfg.lookahead_size,
        lfs.lookahead.size == 0,
        lfs.lookahead.next == 0,
        lfs.name_max == (if cfg.name_max != 0 { cfg.name_max } else { LFS_NAME_MAX }),
        lfs.file_max == (if cfg.file_max != 0 { cfg.file_max } else { LFS_FILE_MAX }),
        lfs.attr_max == (if cfg.attr_max != 0 { cfg.attr_max } else { LFS_ATTR_MAX }),
        lfs.inline_max == inline_max_spec(*cfg, lfs.attr_max),
        lfs.root == [LFS_BLOCK_NULL, LFS_BLOCK_NULL],
        lfs.mlist@.len() == 0,
        lfs.seed == 0,
        gstate_zero(lfs.gstate),
        gstate_zero(lfs.gdisk),
        gstate_zero(lfs.gdelta),
        cfg.block_count == bd.blocks().len() && device_ok(*cfg, bd.blocks()) ==> lfs.caches_ok(),
{
    let cache_size = cfg.cache_size as usize;
    let rcache = LfsCache { block: LFS_BLOCK_NULL, off: 0, size: 0, buffer: erased(cache_size) };
    let pcache = LfsCache { block: LFS_BLOCK_NULL, off: 0, size: 0, buffer: erased(cache_size) };
    let lookahead = LfsLookahead {
        start: 0,
        size: 0,
        next: 0,
        ckpoint: 0,
        buffer: zeroed(cfg.lookahead_size as usize),
    };
    let name_max = if cfg.name_max != 0 { cfg.name_max } else { LFS_NAME_MAX };
    let file_max = if cfg.file_max != 0 { cfg.file_max } else { LFS_FILE_MAX };
    let attr_max = if cfg.attr_max != 0 { cfg.attr_max } else { LFS_ATTR_MAX };
    let inline_max = if cfg.inline_max == u32::MAX {
        0
    } else if cfg.inline_max == 0 {
        let m = if cfg.metadata_max != 0 { cfg.metadata_max } else { cfg.block_size };
        lfs_min(cfg.cache_size, lfs_min(attr_max, m / 8))
    } else {
        cfg.inline_max
    };
    Lfs {
        cfg: *cfg,
        bd,
        rcache,
        pcache,
        root: [LFS_BLOCK_NULL, LFS_BLOCK_NULL],
        mlist: Vec::new(),
        seed: 0,
        gstate: LfsGstate { tag: 0, pair: [0, 0] },
        gdisk: LfsGstate { tag: 0, pair: [0, 0] },
        gdelta: LfsGstate { tag: 0, pair: [0, 0] },
        lookahead,
        block_count: cfg.block_count,
        name_max,
        file_max,
        attr_max,
        inline_max,
    }
}

/// Tears a filesystem instance down, handing its block device back.
pub fn lfs_deinit<D: BlockDevice>(lfs: Lfs<D>) -> (bd: D)
    ensures
        bd == lfs.bd,
{
    lfs.bd
}


/// Whether a superblock's version can be mounted by an instance writing
/// `disk`: the same major version and no newer minor one.
pub open spec fn version_ok(version: u32, disk: u32) -> bool {
    version / 0x10000 == disk / 0x10000 && version % 0x10000 <= disk % 0x10000
}

/// Whether a superblock found on disk fits this instance: a version it
/// reads, limits no larger than its own, the configured block count (if
/// any) and the configured block size.
pub open spec fn superblock_fits<D: BlockDevice>(lfs: Lfs<D>, sb: LfsSuperblock) -> bool {
    &&& version_ok(sb.version, disk_version_spec(lfs.cfg))
    &&& (sb.name_max == 0 || sb.name_max <= lfs.name_max)
    &&& (sb.file_max == 0 || sb.file_max <= lfs.file_max)
    &&& (sb.attr_max == 0 || sb.attr_max <= lfs.attr_max)
    &&& (lfs.cfg.block_count == 0 || sb.block_count == lfs.cfg.block_count)
    &&& sb.block_size == lfs.cfg.block_size
}

/// Takes on the superblock found while mounting: checks that it fits this
/// instance, notes when its minor version is older (so the superblock gets
/// rewritten), and adopts its limits and block count.
pub fn lfs_mount_superblock<D: BlockDevice>(lfs: &mut Lfs<D>, superblock: &LfsSuperblock) -> (r: Result<(), LfsError>)
    ensures
        r is Ok <==> superblock_fits(*old(lfs), *superblock),
        r is Err ==> r == Err::<(), LfsError>(LfsError::Inval),
        r is Ok ==> {
            &&& final(lfs).gstate.tag == prepsuperblock_tag(
                old(lfs).gstate.tag,
                superblock.version % 0x10000 < disk_version_spec(old(lfs).cfg) % 0x10000,
            )
            &&& final(lfs).gstate.pair == old(lfs).gstate.pair
            &&& final(lfs).name_max == (if superblock.name_max != 0 { superblock.name_max } else { old(lfs).name_max })
            &&& final(lfs).file_max == (if superblock.file_max != 0 { superblock.file_max } else { old(lfs).file_max })
            &&& final(lfs).attr_max == (if superblock.attr_max != 0 { superblock.attr_max } else { old(lfs).attr_max })
            &&& final(lfs).inline_max == (if superblock.attr_max != 0 && superblock.attr_max < old(lfs).inline_max {
                superblock.attr_max
            } else {
                old(lfs).inline_max
            })
            &&& final(lfs).block_count == superblock.block_count
            &&& final(lfs).cfg == old(lfs).cfg
            &&& final(lfs).bd == old(lfs).bd
            &&& final(lfs).rcache == old(lfs).rcache
            &&& final(lfs).pcache == old(lfs).pcache
            &&& final(lfs).lookahead == old(lfs).lookahead
            &&& final(lfs).root == old(lfs).root
        },
{
    let major = (superblock.version >> 16) as u16;
    let minor = (superblock.version & 0xffff) as u16;
    let dmajor = lfs_fs_disk_version_major(lfs);
    let dminor = lfs_fs_disk_version_minor(lfs);
    proof {
        let v = superblock.version;
        assert(((v >> 16u32) as u16) == v / 0x10000 && ((v & 0xffffu32) as u16) == v % 0x10000) by (bit_vector);
    }
    if major != dmajor || minor > dminor {
        return Err(LfsError::Inval);
    }
    let needssuperblock = minor < dminor;
    lfs_fs_prepsuperblock(lfs, needssuperblock);
    if superblock.name_max != 0 {
        if superblock.name_max > lfs.name_max {
            return Err(LfsError::Inval);
        }
        lfs.name_max = superblock.name_max;
    }
    if superblock.file_max != 0 {
        if superblock.file_max > lfs.file_max {
            return Err(LfsError::Inval);
        }
        lfs.file_max = superblock.file_max;
    }
    if superblock.attr_max != 0 {
        if superblock.attr_max > lfs.attr_max {
            return Err(LfsError::Inval);
        }
        lfs.attr_max = superblock.attr_max;
        lfs.inline_max = lfs_min(lfs.inline_max, lfs.attr_max);
    }
    if lfs.cfg.block_count != 0 && superblock.block_count != lfs.cfg.block_count {
        return Err(LfsError::Inval);
    }
    lfs.block_count = superblock.block_count;
    if superblock.block_size != lfs.cfg.block_size {
        return Err(LfsError::Inval);
    }
    Ok(())
}

/// Finishes mounting once the metadata has been walked: a global state read
/// back without its valid bit set gets it, becomes the state on disk, and
/// the allocator starts from the seed with an empty window.
pub fn lfs_mount_finish<D: BlockDevice>(lfs: &mut Lfs<D>)
    requires
        old(lfs).block_count > 0,
    ensures
        final(lfs).gstate.tag == (if spec_tag_isvalid(old(lfs).gstate.tag) {
            old(lfs).gstate.tag
        } else {
            ((old(lfs).gstate.tag + 1) % 0x1_0000_0000) as u32
        }),
        final(lfs).gstate.pair == old(lfs).gstate.pair,
        final(lfs).gdisk == final(lfs).gstate,
        final(lfs).lookahead.start == old(lfs).seed % old(lfs).block_count,
        final(lfs).lookahead.size == 0,
        final(lfs).lookahead.next == 0,
        final(lfs).lookahead.ckpoint == old(lfs).block_count,
        final(lfs).lookahead.buffer == old(lfs).lookahead.buffer,
        final(lfs).cfg == old(lfs).cfg,
        final(lfs).bd == old(lfs).bd,
        final(lfs).rcache == old(lfs).rcache,
        final(lfs).pcache == old(lfs).pcache,
        final(lfs).block_count == old(lfs).block_count,
        final(lfs).root == old(lfs).root,
        final(lfs).seed == old(lfs).seed,
{
    let inc: u32 = if lfs_tag_isvalid(lfs.gstate.tag) { 0 } else { 1 };
    lfs.gstate.tag = lfs.gstate.tag.wrapping_add(inc);
    lfs.gdisk = lfs.gstate;
    lfs.lookahead.start = lfs.seed % lfs.block_count;
    lfs_alloc_drop(lfs);
}

/// Counts one more block in use.
pub fn lfs_fs_size_count(size: &mut LfsSize)
    ensures
        *final(size) == ((*old(size) + 1) % 0x1_0000_0000) as u32,
{
    *size = size.wrapping_add(1);
}

/// Unmounts the filesystem, handing its block device back.
pub fn lfs_unmount_<D: BlockDevice>(lfs: Lfs<D>) -> (bd: D)
    ensures
        bd == lfs.bd,
{
    lfs_deinit(lfs)
}

} // verus!
