use littlefs_rust::util::{
    lfs_aligndown, lfs_alignup, lfs_crc, lfs_ctz, lfs_le32_decode, lfs_le32_encode, lfs_max,
    lfs_min, lfs_npw2, lfs_popc,
};

#[test]
fn min_max_pick_the_right_value() {
    assert_eq!(lfs_min(3, 9), 3);
    assert_eq!(lfs_min(9, 3), 3);
    assert_eq!(lfs_max(3, 9), 9);
    assert_eq!(lfs_max(7, 7), 7);
}

#[test]
fn alignment_rounds_to_multiples() {
    assert_eq!(lfs_aligndown(37, 16), 32);
    assert_eq!(lfs_aligndown(32, 16), 32);
    assert_eq!(lfs_alignup(37, 16), 48);
    assert_eq!(lfs_alignup(32, 16), 32);
    assert_eq!(lfs_alignup(0, 8), 0);
}

#[test]
fn npw2_is_the_next_power_of_two_exponent() {
    assert_eq!(lfs_npw2(1), 0);
    assert_eq!(lfs_npw2(2), 1);
    assert_eq!(lfs_npw2(3), 2);
    assert_eq!(lfs_npw2(4), 2);
    assert_eq!(lfs_npw2(5), 3);
    assert_eq!(lfs_npw2(0x8000_0000), 31);
    assert_eq!(lfs_npw2(0x8000_0001), 32);
    assert_eq!(lfs_npw2(0), 32);
}

#[test]
fn ctz_and_popc_count_bits() {
    assert_eq!(lfs_ctz(1), 0);
    assert_eq!(lfs_ctz(8), 3);
    assert_eq!(lfs_ctz(12), 2);
    assert_eq!(lfs_ctz(0x8000_0000), 31);
    assert_eq!(lfs_ctz(0), 32);
    assert_eq!(lfs_popc(0), 0);
    assert_eq!(lfs_popc(0xff), 8);
    assert_eq!(lfs_popc(0x8000_0001), 2);
    assert_eq!(lfs_popc(0xffff_ffff), 32);
}

#[test]
fn crc_of_the_check_string() {
    // The reflected CRC-32 of "123456789" is 0xcbf43926 after the final
    // inversion, which this checksum leaves out.
    assert_eq!(lfs_crc(0xffff_ffff, b"123456789"), 0x340b_c6d9);
    assert_eq!(lfs_crc(0xffff_ffff, b""), 0xffff_ffff);
}

#[test]
fn crc_over_parts_is_crc_over_the_whole() {
    let whole = lfs_crc(0xffff_ffff, b"hello world");
    let part = lfs_crc(lfs_crc(0xffff_ffff, b"hello "), b"world");
    assert_eq!(whole, part);
}

#[test]
fn crc_of_data_and_its_checksum_is_zero() {
    let data = b"littlefs";
    let c = lfs_crc(0xffff_ffff, data);
    let mut buf = data.to_vec();
    buf.extend_from_slice(&c.to_le_bytes());
    assert_eq!(lfs_crc(0xffff_ffff, &buf), 0);
}

#[test]
fn le32_words_round_trip() {
    let bytes = lfs_le32_encode(0x1234_5678);
    assert_eq!(bytes, vec![0x78, 0x56, 0x34, 0x12]);
    assert_eq!(lfs_le32_decode(&bytes, 0), 0x1234_5678);
    let buf = [0u8, 0xaa, 0xbb, 0xcc, 0xdd];
    assert_eq!(lfs_le32_decode(&buf, 1), 0xddcc_bbaa);
}
