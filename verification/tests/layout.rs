use fjallstream::layout::Layout;
use fjallstream::types::{FileId, Generation};

#[test]
fn version_keys_sort_numerically() {
    let l = Layout::new("db", Generation("g1".into()));
    let k9 = l.version(9);
    let k10 = l.version(10);
    assert!(k9 < k10, "zero-padding must keep lexical order == numeric order");
    assert_eq!(Layout::seqno_from_version_key(&k10), Some(10));
}

#[test]
fn keys_of_a_generation() {
    let l = Layout::new("db", Generation("g1".into()));
    assert_eq!(l.base(), "db/generations/g1");
    assert_eq!(l.file(&FileId("keyspaces/1/tables/2".into())), "db/generations/g1/files/keyspaces/1/tables/2");
    assert_eq!(l.files_prefix(), "db/generations/g1/files");
    assert_eq!(l.version(42), "db/generations/g1/versions/00000000000000000042.json");
    assert_eq!(l.version(u64::MAX), "db/generations/g1/versions/18446744073709551615.json");
    assert_eq!(l.versions_prefix(), "db/generations/g1/versions");
    assert_eq!(l.snapshot(42), "db/generations/g1/snapshots/00000000000000000042.json");
    assert_eq!(l.journal(42, "0.jnl"), "db/generations/g1/journals/00000000000000000042/0.jnl");
    assert_eq!(l.journals_prefix(42), "db/generations/g1/journals/00000000000000000042");
    assert_eq!(l.generation.to_string(), "g1");
    assert_eq!(FileId("x".into()).to_string(), "x");
}

#[test]
fn version_keys_parse_back() {
    let l = Layout::new("db", Generation("g".into()));
    for seqno in [0, 1, 9, 10, 99, 12_345_678_901, u64::MAX] {
        assert_eq!(Layout::seqno_from_version_key(&l.version(seqno)), Some(seqno));
        assert_eq!(l.version_at(&l.version(seqno)), Some(seqno));
    }
}

#[test]
fn keys_that_name_no_seqno() {
    for key in [
        "",
        "12",
        "7.json",
        "versions/",
        "versions/.json",
        "versions/-1.json",
        "versions/++7.json",
        "versions/+.json",
        "versions/1x.json",
        "versions/1.json/",
        "versions/1.JSON",
        "versions/18446744073709551616.json",
        "old-versions/7.json",
        "versions/a/7.json",
        "db/generations/g1/files/12.json",
        "db/generations/g1/snapshots/00000000000000000012.json",
        "db/generations/g1/journals/00000000000000000012/12.json",
    ] {
        assert_eq!(Layout::seqno_from_version_key(key), None, "{key}");
    }
    assert_eq!(Layout::seqno_from_version_key("versions/7.json"), Some(7));
    assert_eq!(Layout::seqno_from_version_key("versions/+7.json"), Some(7));
    assert_eq!(Layout::seqno_from_version_key("a/versions/0000000000000000000000000000007.json"), Some(7));
}

#[test]
fn only_keys_of_this_generation_are_its_versions() {
    let l = Layout::new("db", Generation("g".into()));
    assert_eq!(l.version_at("db/generations/g/versions/7.json"), None);
    assert_eq!(l.version_at("db/generations/h/versions/00000000000000000007.json"), None);
    assert_eq!(l.version_at("db/generations/g/snapshots/00000000000000000007.json"), None);
}

#[test]
fn generations_never_cross() {
    let a = Layout::new("db", Generation("g".into()));
    let b = Layout::new("db", Generation("g2".into()));
    assert!(!b.version(1).starts_with(&format!("{}/", a.base())));
    assert!(!a.version(1).starts_with(&format!("{}/", b.base())));
}
