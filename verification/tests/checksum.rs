use fjallstream::checksum::{checksum_for, hash64, verified};
use fjallstream::types::FileChecksum;
use fjallstream::Error;

#[test]
fn stable_and_sensitive() {
    assert_eq!(hash64(b""), 0xcbf2_9ce4_8422_2325, "FNV-1a empty must be the offset basis");
    assert_eq!(hash64(b"hello"), hash64(b"hello"), "deterministic");
    assert_ne!(hash64(b"hello"), hash64(b"hellp"), "single-bit change must differ");
    assert_ne!(hash64(b"ab"), hash64(b"ba"), "order-sensitive");
}

#[test]
fn known_hashes() {
    assert_eq!(hash64(b"a"), 0xaf63_dc4c_8601_ec8c);
    assert_eq!(hash64(b"foobar"), 0x8594_4171_f739_67e8);
}

#[test]
fn one_changed_byte_is_detected() {
    let good: Vec<u8> = (0..=255).collect();
    let hash = hash64(&good);
    for i in 0..good.len() {
        let mut bad = good.clone();
        bad[i] ^= 1;
        assert_ne!(hash64(&bad), hash);
    }
}

#[test]
fn the_last_entry_for_a_path_counts() {
    let entry = |path: &str, hash: u64| FileChecksum { path: path.into(), hash };
    let list = vec![entry("a", 1), entry("b", 2), entry("a", hash64(b"x"))];
    assert_eq!(checksum_for(&list, "a"), Some(hash64(b"x")));
    assert_eq!(checksum_for(&list, "b"), Some(2));
    assert_eq!(checksum_for(&list, "c"), None);
    assert_eq!(verified(&list, "a", b"x".to_vec()).unwrap(), b"x");
    assert_eq!(verified(&list, "c", b"y".to_vec()).unwrap(), b"y");
    assert!(matches!(verified(&list, "b", b"x".to_vec()), Err(Error::ChecksumMismatch(p)) if p == "b"));
}
