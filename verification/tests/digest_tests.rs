use blaze_db::digest::{cache_is_current, index_metadata};

#[test]
fn index_metadata_checksums_the_bytes() {
    let m = index_metadata(&b"abc".to_vec(), 3, 768, "t".to_string());
    assert_eq!(m.checksum, "ba7816bf8f01cfea414140de5dae2223b00361a396177a9cb410ff61f20015ad");
    assert_eq!((m.total_vectors, m.dimensions, m.file_size_mb), (3, 768, 0));
    assert_eq!(m.last_modified, "t");
    let big = index_metadata(&vec![0u8; 3 * 1048576 + 5], 1, 1, "t".to_string());
    assert_eq!(big.file_size_mb, 3);
    assert_ne!(big.checksum, m.checksum);
}

#[test]
fn cache_is_current_compares_checksums() {
    assert!(cache_is_current(&"abc".to_string(), &"abc".to_string()));
    assert!(!cache_is_current(&"abc".to_string(), &"abd".to_string()));
}
