use littlefs_rust::defines::LfsType;
use littlefs_rust::tag::{
    lfs_mktag, lfs_tag_chunk, lfs_tag_dsize, lfs_tag_id, lfs_tag_isdelete, lfs_tag_isvalid,
    lfs_tag_size, lfs_tag_splice, lfs_tag_type1, lfs_tag_type2, lfs_tag_type3, LFS_MKTAG,
};

#[test]
fn mktag_packs_type_id_and_size() {
    assert_eq!(LFS_MKTAG(0x201, 3, 12), 0x2010_0c0c);
    assert_eq!(LFS_MKTAG(0x7ff, 0x3ff, 0), 0x7fff_fc00);
    assert_eq!(lfs_mktag(LfsType::Delete, 0x3ff, 0), 0x4fff_fc00);
    assert_eq!(lfs_mktag(LfsType::CtzStruct, 1, 8), 0x2020_0408);
}

#[test]
fn tag_fields_come_back_out() {
    let t = LFS_MKTAG(0x201, 3, 12);
    assert_eq!(lfs_tag_type3(t), 0x201);
    assert_eq!(lfs_tag_type1(t), 0x200);
    assert_eq!(lfs_tag_type2(t), 0x200);
    assert_eq!(lfs_tag_chunk(t), 0x01);
    assert_eq!(lfs_tag_id(t), 3);
    assert_eq!(lfs_tag_size(t), 12);
    assert!(lfs_tag_isvalid(t));
    assert!(!lfs_tag_isvalid(t | 0x8000_0000));
}

#[test]
fn splice_is_the_signed_chunk() {
    let t = LFS_MKTAG(0x4ff, 0, 0);
    assert_eq!(lfs_tag_chunk(t), 0xff);
    assert_eq!(lfs_tag_splice(t), -1);
    assert_eq!(lfs_tag_splice(LFS_MKTAG(0x401, 0, 0)), 1);
}

#[test]
fn deleted_tags_take_only_their_own_word() {
    let t = LFS_MKTAG(0x201, 3, 0x3ff);
    assert!(lfs_tag_isdelete(t));
    assert_eq!(lfs_tag_dsize(t), 4);
    assert_eq!(lfs_tag_dsize(LFS_MKTAG(0x201, 3, 12)), 16);
}
