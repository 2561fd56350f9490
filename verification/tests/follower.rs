//! What a follower decides.

use fjallstream::follower::missing_files;
use fjallstream::checksum::hash64;
use fjallstream::layout::Layout;
use fjallstream::restore::{restore_to, FetchFile, RestoreStep, Restored};
use fjallstream::types::FileChecksum;
use fjallstream::{Error, FileId, FollowConfig, Follower, Generation, VersionRecord};
use std::path::PathBuf;
use std::time::Duration;

fn record(seqno: u64) -> VersionRecord {
    VersionRecord {
        seqno,
        parent: None,
        file_ids: vec![],
        dirs: vec![],
        journals: vec![],
        pointers: vec![],
        checksums: vec![],
        journal_checksums: vec![],
        is_snapshot: false,
        ts_millis: 0,
    }
}

fn follower() -> Follower {
    let cfg = FollowConfig {
        poll_interval: Duration::from_millis(50),
        local_dir: PathBuf::from("/follower"),
    };
    Follower::new(Layout::new("db", Generation("g".into())), cfg)
}

/// The restore of a version that has no files.
fn restored(record: VersionRecord) -> Restored {
    let plan = restore_to(&Layout::new("db", Generation("g".into())), record, false, Some("v"), "v").unwrap();
    let RestoreStep::Write(lock) = plan.first else { panic!("expected the lock file") };
    assert_eq!(lock.path(), "lock");
    assert!(lock.bytes().is_empty());
    let RestoreStep::Swap(swap) = lock.done() else { panic!("expected the swap") };
    swap.done()
}

/// A version with one file, whose bytes are on record.
fn one_file(seqno: u64, bytes: &[u8]) -> VersionRecord {
    let mut r = record(seqno);
    r.file_ids = vec![FileId("t".into())];
    r.checksums = vec![FileChecksum { path: "t".into(), hash: hash64(bytes) }];
    r
}

fn first_fetch(record: VersionRecord) -> FetchFile {
    let plan = restore_to(&Layout::new("db", Generation("g".into())), record, false, Some("v"), "v").unwrap();
    let RestoreStep::FetchFile(fetch) = plan.first else { panic!("expected a file") };
    fetch
}

#[test]
fn a_version_is_served_only_when_it_is_whole() {
    let mut f = follower();
    // A corrupted object ends the restore: there is nothing to adopt.
    let news = f.poll_once(Ok(one_file(5, b"good"))).unwrap().unwrap();
    let refused = first_fetch(news).answer(b"evil".to_vec());
    assert!(matches!(refused, Err(Error::ChecksumMismatch(path)) if path == "t"));
    assert_eq!(f.applied_seqno(), None);

    // The next poll starts over, and goes all the way.
    let news = f.poll_once(Ok(one_file(5, b"good"))).unwrap().unwrap();
    let fetch = first_fetch(news);
    assert_eq!(fetch.path(), "t");
    assert_eq!(fetch.key(), &f.layout().file(&FileId("t".into())));
    let write = fetch.answer(b"good".to_vec()).unwrap();
    assert_eq!((write.path().as_str(), write.bytes().as_slice()), ("t", &b"good"[..]));
    let RestoreStep::Write(lock) = write.done() else { panic!("expected the lock file") };
    let RestoreStep::Swap(swap) = lock.done() else { panic!("expected the swap") };
    let whole = swap.done();
    assert_eq!(whole.record().seqno, 5);
    assert!(f.adopt(&whole));
    assert_eq!(f.applied_seqno(), Some(5));
    assert_eq!(whole.into_record().file_ids, vec![FileId("t".into())]);
}

#[test]
fn a_local_copy_stands_in_if_it_is_good() {
    let Err(fetch) = first_fetch(one_file(5, b"good")).local(b"stale".to_vec()) else {
        panic!("a stale copy must not stand in")
    };
    assert_eq!(fetch.path(), "t");
    let Ok(write) = fetch.local(b"good".to_vec()) else { panic!("a good copy stands in") };
    assert_eq!(write.bytes(), b"good");
}

#[test]
fn a_follower_advances_to_newer_versions_only() {
    let mut f = follower();
    assert_eq!(f.applied_seqno(), None);

    let news = f.poll_once(Ok(record(5))).unwrap().expect("the first version is news");
    assert_eq!(f.applied_seqno(), None, "nothing is served before it is adopted");
    assert!(f.adopt(&restored(news)));
    assert_eq!(f.applied_seqno(), Some(5));

    assert!(f.poll_once(Ok(record(5))).unwrap().is_none(), "no new version, no advance");
    assert!(f.poll_once(Ok(record(4))).unwrap().is_none());
    assert!(!f.adopt(&restored(record(4))), "a follower never goes back");
    assert_eq!(f.applied_seqno(), Some(5));

    assert!(f.poll_once(Ok(record(6))).unwrap().is_some());
    assert!(f.adopt(&restored(record(6))));
    assert_eq!(f.applied_seqno(), Some(6));
}

#[test]
fn an_empty_bucket_is_no_error() {
    let f = follower();
    assert!(f.poll_once(Err(Error::NotFound("no version records in generation".into()))).unwrap().is_none());
    let down = f.poll_once(Err(Error::Store("down".into())));
    assert!(matches!(down, Err(Error::Store(what)) if what == "down"));
    let aged = f.poll_once(Err(Error::OutsideRetention(3)));
    assert!(matches!(aged, Err(Error::OutsideRetention(3))));
}

#[test]
fn each_version_has_a_directory_of_its_own() {
    assert_eq!(Follower::version_dir(7), "00000000000000000007");
    assert_eq!(Follower::version_dir(u64::MAX), "18446744073709551615");
    let f = follower();
    assert_eq!(f.config().poll_interval, Duration::from_millis(50));
    assert_eq!(f.config().local_dir, PathBuf::from("/follower"));
    assert_eq!(f.layout().db, "db");
}

#[test]
fn only_missing_files_are_downloaded() {
    let ids = |names: &[&str]| -> Vec<FileId> { names.iter().map(|n| FileId(n.to_string())).collect() };
    let mut r = record(1);
    r.file_ids = ids(&["d", "a", "c", "b"]);
    assert_eq!(missing_files(&r, &ids(&["c", "x", "d"])), ids(&["a", "b"]));
    assert_eq!(missing_files(&r, &[].to_vec()), r.file_ids);
    assert!(missing_files(&r, &r.file_ids).is_empty());
}
