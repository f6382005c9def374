use littlefs_rust::path::{lfs_path_isdir, lfs_path_islast, lfs_path_namelen};

#[test]
fn namelen_stops_at_separator_nul_or_end() {
    assert_eq!(lfs_path_namelen(b"docs/note.txt"), 4);
    assert_eq!(lfs_path_namelen(b"note.txt"), 8);
    assert_eq!(lfs_path_namelen(b"abc\0def"), 3);
    assert_eq!(lfs_path_namelen(b"/root"), 0);
    assert_eq!(lfs_path_namelen(b""), 0);
}

#[test]
fn isdir_when_a_separator_follows() {
    assert!(lfs_path_isdir(b"docs/note.txt"));
    assert!(lfs_path_isdir(b"docs/"));
    assert!(!lfs_path_isdir(b"docs"));
    assert!(!lfs_path_isdir(b"docs\0/x"));
}

#[test]
fn islast_when_only_separators_follow() {
    assert!(lfs_path_islast(b"docs"));
    assert!(lfs_path_islast(b"docs/"));
    assert!(lfs_path_islast(b"docs///"));
    assert!(lfs_path_islast(b"docs//\0more"));
    assert!(!lfs_path_islast(b"docs/note.txt"));
    assert!(!lfs_path_islast(b"docs//x"));
}
