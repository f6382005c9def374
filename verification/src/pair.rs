//! Metadata block pairs, the global state, and the storage byte order of
//! the small on-disk structures.
use vstd::prelude::*;
use crate::defines::{
    LfsBlock, LfsCtz, LfsFcrc, LfsGstate, LfsSuperblock, LFS_BLOCK_NULL,
};
use crate::tag::{spec_tag_size, lfs_tag_size, lfs_tag_type1};
use crate::util::{lfs_fromle32, lfs_tole32, spec_fromle32, lemma_endian_roundtrip};

verus! {

/// Whether two pairs share a block.
pub open spec fn spec_pair_overlap(a: [LfsBlock; 2], b: [LfsBlock; 2]) -> bool {
    a[0] == b[0] || a[1] == b[1] || a[0] == b[1] || a[1] == b[0]
}

/// Whether two pairs hold the same two blocks, in either order.
pub open spec fn spec_pair_issync(a: [LfsBlock; 2], b: [LfsBlock; 2]) -> bool {
    (a[0] == b[0] && a[1] == b[1]) || (a[0] == b[1] && a[1] == b[0])
}

/// Whether a pair names no block.
pub open spec fn spec_pair_isnull(p: [LfsBlock; 2]) -> bool {
    p[0] == LFS_BLOCK_NULL || p[1] == LFS_BLOCK_NULL
}

/// Swaps the two blocks of a pair.
pub fn lfs_pair_swap(pair: &mut [LfsBlock; 2])
    ensures
        final(pair)[0] == old(pair)[1],
        final(pair)[1] == old(pair)[0],
{
    let t = pair[0];
    pair[0] = pair[1];
    pair[1] = t;
}

/// Whether a pair names no block (either half is null).
pub fn lfs_pair_isnull(pair: &[LfsBlock; 2]) -> (r: bool)
    ensures
        r == spec_pair_isnull(*pair),
{
    pair[0] == LFS_BLOCK_NULL || pair[1] == LFS_BLOCK_NULL
}

/// Compares two pairs: 0 when they share a block, 1 when they are disjoint.
pub fn lfs_pair_cmp(paira: &[LfsBlock; 2], pairb: &[LfsBlock; 2]) -> (r: i32)
    ensures
        r == (if spec_pair_overlap(*paira, *pairb) { 0i32 } else { 1i32 }),
{
    if paira[0] == pairb[0] || paira[1] == pairb[1] || paira[0] == pairb[1] || paira[1] == pairb[0] {
        0
    } else {
        1
    }
}

/// Whether two pairs hold the same two blocks, in either order.
pub fn lfs_pair_issync(paira: &[LfsBlock; 2], pairb: &[LfsBlock; 2]) -> (r: bool)
    ensures
        r == spec_pair_issync(*paira, *pairb),
{
    (paira[0] == pairb[0] && paira[1] == pairb[1]) || (paira[0] == pairb[1] && paira[1] == pairb[0])
}

/// Converts a pair from its little-endian storage.
pub fn lfs_pair_fromle32(pair: &mut [LfsBlock; 2])
    ensures
        final(pair)[0] == spec_fromle32(old(pair)[0]),
        final(pair)[1] == spec_fromle32(old(pair)[1]),
{
    pair[0] = lfs_fromle32(pair[0]);
    pair[1] = lfs_fromle32(pair[1]);
}

/// Converts a pair to its little-endian storage.
pub fn lfs_pair_tole32(pair: &mut [LfsBlock; 2])
    ensures
        final(pair)[0] == spec_fromle32(old(pair)[0]),
        final(pair)[1] == spec_fromle32(old(pair)[1]),
{
    pair[0] = lfs_tole32(pair[0]);
    pair[1] = lfs_tole32(pair[1]);
}

/// Sharing a block is symmetric, and a pair in sync with another shares a block with it.
pub proof fn lemma_pair_cmp_laws(a: [LfsBlock; 2], b: [LfsBlock; 2])
    ensures
        spec_pair_overlap(a, b) == spec_pair_overlap(b, a),
        spec_pair_issync(a, b) == spec_pair_issync(b, a),
        spec_pair_issync(a, b) ==> spec_pair_overlap(a, b),
        spec_pair_issync(a, a),
        spec_pair_issync(a, [a[1], a[0]]),
{
}

/// Converting a pair to storage order and back gives it back.
pub proof fn lemma_pair_le_roundtrip(p: [LfsBlock; 2])
    ensures
        spec_fromle32(spec_fromle32(p[0])) == p[0],
        spec_fromle32(spec_fromle32(p[1])) == p[1],
{
    lemma_endian_roundtrip(p[0]);
    lemma_endian_roundtrip(p[1]);
}

/// The global state as a triple of words.
pub open spec fn gstate_xor_spec(a: LfsGstate, b: LfsGstate) -> LfsGstate {
    LfsGstate { tag: a.tag ^ b.tag, pair: [a.pair[0] ^ b.pair[0], a.pair[1] ^ b.pair[1]] }
}

/// Whether a global state holds a pending move (its major type is nonzero).
pub open spec fn spec_gstate_hasmove(a: LfsGstate) -> bool {
    (a.tag / 0x10000000) % 8 != 0
}

/// Xors `b` into `a`.
pub fn lfs_gstate_xor(a: &mut LfsGstate, b: &LfsGstate)
    ensures
        final(a).tag == gstate_xor_spec(*old(a), *b).tag,
        final(a).pair[0] == gstate_xor_spec(*old(a), *b).pair[0],
        final(a).pair[1] == gstate_xor_spec(*old(a), *b).pair[1],
{
    a.tag = a.tag ^ b.tag;
    a.pair[0] = a.pair[0] ^ b.pair[0];
    a.pair[1] = a.pair[1] ^ b.pair[1];
}

/// Whether all three words of a global state are zero.
pub fn lfs_gstate_iszero(a: &LfsGstate) -> (r: bool)
    ensures
        r == (a.tag == 0 && a.pair[0] == 0 && a.pair[1] == 0),
{
    a.tag == 0 && a.pair[0] == 0 && a.pair[1] == 0
}

/// Whether the global state counts orphans.
pub fn lfs_gstate_hasorphans(a: &LfsGstate) -> (r: bool)
    ensures
        r == (spec_tag_size(a.tag) != 0),
{
    lfs_tag_size(a.tag) != 0
}

/// The number of orphans the global state counts, kept to its low eight bits.
pub fn lfs_gstate_getorphans(a: &LfsGstate) -> (r: u8)
    ensures
        r == spec_tag_size(a.tag) % 0x100,
{
    let s = lfs_tag_size(a.tag);
    assert(((s & 0x1ff) as u8) == s % 0x100) by (bit_vector);
    #[verifier::truncate]
    ((s & 0x1ff) as u8)
}

/// Whether the global state holds a pending move.
pub fn lfs_gstate_hasmove(a: &LfsGstate) -> (r: bool)
    ensures
        r == spec_gstate_hasmove(*a),
{
    lfs_tag_type1(a.tag) != 0
}

/// Whether the global state asks for the superblock to be rewritten.
pub fn lfs_gstate_needssuperblock(a: &LfsGstate) -> (r: bool)
    ensures
        r == (spec_tag_size(a.tag) >= 0x200),
{
    let s = lfs_tag_size(a.tag);
    assert(s < 0x400 ==> ((s >> 9u32) != 0 <==> s >= 0x200)) by (bit_vector);
    (s >> 9u32) != 0
}

/// Whether the global state holds a pending move out of the given pair.
pub fn lfs_gstate_hasmovehere(a: &LfsGstate, pair: &[LfsBlock; 2]) -> (r: bool)
    ensures
        r == (spec_gstate_hasmove(*a) && spec_pair_overlap(a.pair, *pair)),
{
    lfs_tag_type1(a.tag) != 0 && lfs_pair_cmp(&a.pair, pair) == 0
}

/// Converts a global state from its little-endian storage.
pub fn lfs_gstate_fromle32(a: &mut LfsGstate)
    ensures
        final(a).tag == spec_fromle32(old(a).tag),
        final(a).pair[0] == spec_fromle32(old(a).pair[0]),
        final(a).pair[1] == spec_fromle32(old(a).pair[1]),
{
    a.tag = lfs_fromle32(a.tag);
    a.pair[0] = lfs_fromle32(a.pair[0]);
    a.pair[1] = lfs_fromle32(a.pair[1]);
}

/// Converts a global state to its little-endian storage.
pub fn lfs_gstate_tole32(a: &mut LfsGstate)
    ensures
        final(a).tag == spec_fromle32(old(a).tag),
        final(a).pair[0] == spec_fromle32(old(a).pair[0]),
        final(a).pair[1] == spec_fromle32(old(a).pair[1]),
{
    a.tag = lfs_tole32(a.tag);
    a.pair[0] = lfs_tole32(a.pair[0]);
    a.pair[1] = lfs_tole32(a.pair[1]);
}

/// Xoring in the same state twice undoes it, and a state xored with itself is zero.
pub proof fn lemma_gstate_xor_laws(a: LfsGstate, b: LfsGstate)
    ensures
        gstate_xor_spec(gstate_xor_spec(a, b), b) == a,
        gstate_xor_spec(a, b) == gstate_xor_spec(b, a),
        ({
            let z = gstate_xor_spec(a, a);
            z.tag == 0 && z.pair[0] == 0 && z.pair[1] == 0
        }),
{
    let (x, y, z) = (a.tag, a.pair[0], a.pair[1]);
    let (u, v, w) = (b.tag, b.pair[0], b.pair[1]);
    assert((x ^ u) ^ u == x && (y ^ v) ^ v == y && (z ^ w) ^ w == z && x ^ u == u ^ x && y ^ v == v ^ y && z
        ^ w == w ^ z && x ^ x == 0 && y ^ y == 0 && z ^ z == 0) by (bit_vector);
    assert(gstate_xor_spec(gstate_xor_spec(a, b), b).pair =~= a.pair);
    assert(gstate_xor_spec(a, b).pair =~= gstate_xor_spec(b, a).pair);
}

/// Converts a file-checksum record from its little-endian storage.
pub fn lfs_fcrc_fromle32(fcrc: &mut LfsFcrc)
    ensures
        final(fcrc).size == spec_fromle32(old(fcrc).size),
        final(fcrc).crc == spec_fromle32(old(fcrc).crc),
{
    fcrc.size = lfs_fromle32(fcrc.size);
    fcrc.crc = lfs_fromle32(fcrc.crc);
}

/// Converts a file-checksum record to its little-endian storage.
pub fn lfs_fcrc_tole32(fcrc: &mut LfsFcrc)
    ensures
        final(fcrc).size == spec_fromle32(old(fcrc).size),
        final(fcrc).crc == spec_fromle32(old(fcrc).crc),
{
    fcrc.size = lfs_tole32(fcrc.size);
    fcrc.crc = lfs_tole32(fcrc.crc);
}

/// Converts a skip-list reference from its little-endian storage.
pub fn lfs_ctz_fromle32(ctz: &mut LfsCtz)
    ensures
        final(ctz).head == spec_fromle32(old(ctz).head),
        final(ctz).size == spec_fromle32(old(ctz).size),
{
    ctz.head = lfs_fromle32(ctz.head);
    ctz.size = lfs_fromle32(ctz.size);
}

/// Converts a skip-list reference to its little-endian storage.
pub fn lfs_ctz_tole32(ctz: &mut LfsCtz)
    ensures
        final(ctz).head == spec_fromle32(old(ctz).head),
        final(ctz).size == spec_fromle32(old(ctz).size),
{
    ctz.head = lfs_tole32(ctz.head);
    ctz.size = lfs_tole32(ctz.size);
}

/// Each field of a superblock converted by `f`.
pub open spec fn superblock_map_le(s: LfsSuperblock) -> LfsSuperblock {
    LfsSuperblock {
        version: spec_fromle32(s.version),
        block_size: spec_fromle32(s.block_size),
        block_count: spec_fromle32(s.block_count),
        name_max: spec_fromle32(s.name_max),
        file_max: spec_fromle32(s.file_max),
        attr_max: spec_fromle32(s.attr_max),
    }
}

/// Converts a superblock from its little-endian storage.
pub fn lfs_superblock_fromle32(superblock: &mut LfsSuperblock)
    ensures
        *final(superblock) == superblock_map_le(*old(superblock)),
{
    superblock.version = lfs_fromle32(superblock.version);
    superblock.block_size = lfs_fromle32(superblock.block_size);
    superblock.block_count = lfs_fromle32(superblock.block_count);
    superblock.name_max = lfs_fromle32(superblock.name_max);
    superblock.file_max = lfs_fromle32(superblock.file_max);
    superblock.attr_max = lfs_fromle32(superblock.attr_max);
}

/// Converts a superblock to its little-endian storage.
pub fn lfs_superblock_tole32(superblock: &mut LfsSuperblock)
    ensures
        *final(superblock) == superblock_map_le(*old(superblock)),
{
    superblock.version = lfs_tole32(superblock.version);
    superblock.block_size = lfs_tole32(superblock.block_size);
    superblock.block_count = lfs_tole32(superblock.block_count);
    superblock.name_max = lfs_tole32(superblock.name_max);
    superblock.file_max = lfs_tole32(superblock.file_max);
    superblock.attr_max = lfs_tole32(superblock.attr_max);
}

/// Converting a superblock to storage order and back gives it back.
pub proof fn lemma_superblock_le_roundtrip(s: LfsSuperblock)
    ensures
        superblock_map_le(superblock_map_le(s)) == s,
{
    lemma_endian_roundtrip(s.version);
    lemma_endian_roundtrip(s.block_size);
    lemma_endian_roundtrip(s.block_count);
    lemma_endian_roundtrip(s.name_max);
    lemma_endian_roundtrip(s.file_max);
    lemma_endian_roundtrip(s.attr_max);
}

} // verus!
