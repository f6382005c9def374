use littlefs_rust::defines::{LfsCtz, LfsFcrc, LfsGstate, LfsSuperblock, LFS_BLOCK_NULL};
use littlefs_rust::pair::{
    lfs_ctz_fromle32, lfs_ctz_tole32, lfs_fcrc_fromle32, lfs_fcrc_tole32, lfs_gstate_fromle32,
    lfs_gstate_getorphans, lfs_gstate_hasmove, lfs_gstate_hasmovehere, lfs_gstate_hasorphans,
    lfs_gstate_iszero, lfs_gstate_needssuperblock, lfs_gstate_tole32, lfs_gstate_xor,
    lfs_pair_cmp, lfs_pair_fromle32, lfs_pair_isnull, lfs_pair_issync, lfs_pair_swap,
    lfs_pair_tole32, lfs_superblock_fromle32, lfs_superblock_tole32,
};

#[test]
fn pairs_swap_and_compare() {
    let mut p = [1u32, 2u32];
    lfs_pair_swap(&mut p);
    assert_eq!(p, [2, 1]);
    assert_eq!(lfs_pair_cmp(&[1, 2], &[2, 5]), 0);
    assert_eq!(lfs_pair_cmp(&[1, 2], &[3, 4]), 1);
    assert!(lfs_pair_issync(&[1, 2], &[2, 1]));
    assert!(!lfs_pair_issync(&[1, 2], &[1, 3]));
    assert!(lfs_pair_isnull(&[LFS_BLOCK_NULL, 3]));
    assert!(!lfs_pair_isnull(&[0, 1]));
}

#[test]
fn pairs_round_trip_through_storage() {
    let mut p = [0x0102_0304u32, 7];
    lfs_pair_tole32(&mut p);
    lfs_pair_fromle32(&mut p);
    assert_eq!(p, [0x0102_0304, 7]);
}

#[test]
fn gstate_xor_undoes_itself() {
    let a = LfsGstate { tag: 0x1234_5678, pair: [3, 4] };
    let b = LfsGstate { tag: 0x0f0f_0f0f, pair: [9, 1] };
    let mut x = a;
    lfs_gstate_xor(&mut x, &b);
    assert_eq!(x.tag, 0x1234_5678 ^ 0x0f0f_0f0f);
    lfs_gstate_xor(&mut x, &b);
    assert_eq!(x.tag, a.tag);
    assert_eq!(x.pair, a.pair);
    let mut z = a;
    lfs_gstate_xor(&mut z, &a);
    assert!(lfs_gstate_iszero(&z));
}

#[test]
fn gstate_reports_orphans_moves_and_superblock() {
    let g = LfsGstate { tag: 0x8000_0003, pair: [0, 0] };
    assert!(lfs_gstate_hasorphans(&g));
    assert_eq!(lfs_gstate_getorphans(&g), 3);
    assert!(!lfs_gstate_needssuperblock(&g));
    let s = LfsGstate { tag: 0x0000_0200, pair: [0, 0] };
    assert!(lfs_gstate_needssuperblock(&s));
    let m = LfsGstate { tag: 0x4ff0_0c00, pair: [5, 6] };
    assert!(lfs_gstate_hasmove(&m));
    assert!(lfs_gstate_hasmovehere(&m, &[6, 5]));
    assert!(!lfs_gstate_hasmovehere(&m, &[7, 8]));
    assert!(!lfs_gstate_hasmove(&g));
}

#[test]
fn records_round_trip_through_storage() {
    let mut g = LfsGstate { tag: 0xdead_beef, pair: [1, 2] };
    lfs_gstate_tole32(&mut g);
    lfs_gstate_fromle32(&mut g);
    assert_eq!(g.tag, 0xdead_beef);
    assert_eq!(g.pair, [1, 2]);

    let mut f = LfsFcrc { size: 16, crc: 0x1234 };
    lfs_fcrc_tole32(&mut f);
    lfs_fcrc_fromle32(&mut f);
    assert_eq!(f, LfsFcrc { size: 16, crc: 0x1234 });

    let mut c = LfsCtz { head: 40, size: 1000 };
    lfs_ctz_tole32(&mut c);
    lfs_ctz_fromle32(&mut c);
    assert_eq!(c, LfsCtz { head: 40, size: 1000 });

    let sb0 = LfsSuperblock {
        version: 0x0002_0001,
        block_size: 512,
        block_count: 64,
        name_max: 255,
        file_max: 0x7fff_ffff,
        attr_max: 1022,
    };
    let mut sb = sb0;
    lfs_superblock_tole32(&mut sb);
    lfs_superblock_fromle32(&mut sb);
    assert_eq!(sb, sb0);
}
