//! Captures of a directory that holds still, and of one that does not.

use fjallstream::capture::{
    capture, classify, Attempt, CaptureStep, Captured, EntryKind, Walk, CAPTURE_RETRIES,
};
use fjallstream::{Error, FileId};
use std::path::PathBuf;

/// What one try sees.
#[derive(Clone)]
struct Sight {
    vanished: bool,
    keyspaces: (usize, usize),
    pointer_now: Option<Vec<u8>>,
    names: Vec<&'static str>,
    journal: Option<(u64, Vec<u8>, u64)>,
    seqno: u64,
}

fn calm() -> Sight {
    Sight {
        vanished: false,
        keyspaces: (1, 1),
        pointer_now: Some(vec![7]),
        names: vec!["lock", "keyspaces", "0.jnl"],
        journal: Some((3, vec![1, 2, 3], 3)),
        seqno: 42,
    }
}

fn walk() -> Walk {
    let mut walk = Walk::new();
    let mut visit = |rel: &str, name: &str, is_dir: bool| {
        walk.visit(rel, name, is_dir, PathBuf::from("/db").join(rel))
    };
    assert_eq!(visit("lock", "lock", false), EntryKind::Lock);
    assert_eq!(visit("0.jnl", "0.jnl", false), EntryKind::Journal);
    assert_eq!(visit("keyspaces", "keyspaces", true), EntryKind::Directory);
    assert_eq!(visit("keyspaces\\1", "1", true), EntryKind::Directory);
    assert_eq!(visit("keyspaces\\1\\v1", "v1", false), EntryKind::Immutable);
    assert_eq!(visit("keyspaces\\1\\current", "current", false), EntryKind::Pointer);
    walk.pointer("keyspaces\\1\\current", vec![7]);
    walk
}

fn try_once(attempt: Attempt, sight: &Sight) -> Result<Captured, Result<Attempt, Error>> {
    let mut step = if sight.vanished {
        attempt.vanished()
    } else {
        attempt.walked(walk(), sight.keyspaces.0, sight.keyspaces.1)
    };
    loop {
        step = match step {
            CaptureStep::Again(next) => return Err(Ok(next)),
            CaptureStep::GiveUp(e) => return Err(Err(e)),
            CaptureStep::CheckPointer(check) => {
                assert_eq!(check.path(), "keyspaces/1/current");
                check.answer(sight.pointer_now.clone())
            }
            CaptureStep::ListJournals(list) => {
                list.answer(&sight.names.iter().map(|n| n.to_string()).collect())
            }
            CaptureStep::ReadJournal(read) => {
                assert_eq!(read.path(), &PathBuf::from("/db/0.jnl"));
                read.answer(sight.journal.clone())
            }
            CaptureStep::ReadSeqno(read) => return Ok(read.answer(sight.seqno)),
        };
    }
}

fn capture_all(sights: &[Sight]) -> Result<Captured, Error> {
    let mut attempt = capture(Some(41));
    for sight in sights {
        match try_once(attempt, sight) {
            Ok(captured) => return Ok(captured),
            Err(Ok(next)) => attempt = next,
            Err(Err(e)) => return Err(e),
        }
    }
    panic!("a capture ends within its tries");
}

#[test]
fn what_holds_still_is_captured() {
    let captured = capture_all(&[calm()]).unwrap();
    assert_eq!(captured.retries, 0);
    let v = captured.version;
    assert_eq!(v.seqno, 42);
    assert_eq!(v.parent, Some(41));
    assert_eq!(
        v.files,
        vec![(FileId("keyspaces/1/v1".into()), PathBuf::from("/db/keyspaces\\1\\v1"))]
    );
    assert_eq!(v.dirs, vec!["keyspaces", "keyspaces/1"]);
    assert_eq!(v.journals, vec![("0.jnl".to_string(), vec![1, 2, 3])]);
    assert_eq!(v.pointers.len(), 1);
    assert_eq!(v.pointers[0].path, "keyspaces/1/current");
    assert_eq!(v.pointers[0].bytes, vec![7]);
}

fn unsettled() -> Vec<Sight> {
    vec![
        Sight { vanished: true, ..calm() },
        Sight { keyspaces: (1, 2), ..calm() },
        Sight { keyspaces: (2, 1), ..calm() },
        Sight { pointer_now: Some(vec![8]), ..calm() },
        Sight { pointer_now: Some(vec![7, 7]), ..calm() },
        Sight { pointer_now: None, ..calm() },
        Sight { names: vec!["0.jnl", "1.jnl"], ..calm() },
        Sight { names: vec!["lock"], ..calm() },
        Sight { journal: None, ..calm() },
        Sight { journal: Some((3, vec![1, 2, 3], 4)), ..calm() },
        Sight { journal: Some((4, vec![1, 2, 3], 3)), ..calm() },
        Sight { journal: Some((4, vec![1, 2, 3], 4)), ..calm() },
    ]
}

#[test]
fn whatever_moves_is_tried_again() {
    for sight in unsettled() {
        let captured = capture_all(&[sight.clone(), sight, calm()]).unwrap();
        assert_eq!(captured.retries, 2);
        assert_eq!(captured.version.seqno, 42);
    }
}

#[test]
fn the_last_try_still_counts() {
    let mut sights = vec![Sight { vanished: true, ..calm() }; CAPTURE_RETRIES - 1];
    sights.push(calm());
    assert_eq!(capture_all(&sights).unwrap().retries, 7);
}

#[test]
fn constant_churn_gives_up() {
    for sight in unsettled() {
        let err = capture_all(&vec![sight; CAPTURE_RETRIES]);
        assert!(matches!(
            err,
            Err(Error::Fjall(what))
                if what == "could not capture a stable manifest after 8 tries (compaction churn)"
        ));
    }
}

#[test]
fn entries_are_told_apart() {
    assert_eq!(classify("keyspaces/1/lock", "lock", false), EntryKind::Lock);
    assert_eq!(classify("a/lock.jnl", "lock.jnl", false), EntryKind::Journal);
    assert_eq!(classify("x/current", "current", true), EntryKind::Directory);
    assert_eq!(classify("x/current", "current", false), EntryKind::Pointer);
    assert_eq!(classify("x/current2", "current2", false), EntryKind::Immutable);
    assert_eq!(classify("version", "version", false), EntryKind::Immutable);
}

#[test]
fn each_captured_path_is_in_one_list() {
    let v = capture_all(&[Sight { vanished: true, ..calm() }, calm()]).unwrap().version;
    let mut paths: Vec<String> = v.files.iter().map(|(id, _)| id.0.clone()).collect();
    paths.extend(v.journals.iter().map(|(name, _)| name.clone()));
    paths.extend(v.pointers.iter().map(|p| p.path.clone()));
    let all = paths.len();
    paths.sort();
    paths.dedup();
    assert_eq!(paths.len(), all);
    assert!(paths.iter().all(|p| !p.ends_with("lock")));
}
