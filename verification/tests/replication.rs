//! Whole replications, prunes and restores against the in-memory store, with version records kept
//! as JSON objects.

use fjallstream::checksum::hash64;
use fjallstream::compress::gunzip;
use fjallstream::layout::Layout;
use fjallstream::object_store::MemObjectStore;
use fjallstream::replicator::{LocalVersion, ReplicateConfig, Replicator};
use fjallstream::restore::{resolve_version, restore_to, Resolution, RestoreStep};
use fjallstream::retention::{deletions, journal_prefixes};
use fjallstream::types::{FileChecksum, FileId, Generation, PointerFile, RestoreTarget, VersionRecord};
use fjallstream::upload::Step;
use fjallstream::Error;
use serde_json::Value;
use std::collections::BTreeMap;
use std::path::PathBuf;
use std::time::Duration;

// ---- version records as JSON ----

fn strings(list: &[String]) -> Value {
    Value::Array(list.iter().map(|s| Value::from(s.as_str())).collect())
}

fn checksums(list: &[FileChecksum]) -> Value {
    Value::Array(
        list.iter()
            .map(|c| Value::Array(vec![Value::from(c.path.as_str()), Value::from(c.hash)]))
            .collect(),
    )
}

fn encode(r: &VersionRecord) -> Vec<u8> {
    let mut m = serde_json::Map::new();
    m.insert("seqno".into(), Value::from(r.seqno));
    m.insert("parent".into(), r.parent.map_or(Value::Null, Value::from));
    let ids: Vec<String> = r.file_ids.iter().map(|id| id.0.clone()).collect();
    m.insert("file_ids".into(), strings(&ids));
    m.insert("dirs".into(), strings(&r.dirs));
    m.insert("journals".into(), strings(&r.journals));
    let pointers = r.pointers.iter().map(|p| {
        let bytes = p.bytes.iter().map(|b| Value::from(*b)).collect();
        Value::Array(vec![Value::from(p.path.as_str()), Value::Array(bytes)])
    });
    m.insert("pointers".into(), Value::Array(pointers.collect()));
    m.insert("checksums".into(), checksums(&r.checksums));
    m.insert("journal_checksums".into(), checksums(&r.journal_checksums));
    m.insert("is_snapshot".into(), Value::from(r.is_snapshot));
    m.insert("ts_millis".into(), Value::from(r.ts_millis));
    serde_json::to_vec(&Value::Object(m)).unwrap()
}

fn text(v: &Value) -> String {
    v.as_str().unwrap().to_string()
}

fn decode_checksums(v: &Value) -> Vec<FileChecksum> {
    v.as_array()
        .unwrap()
        .iter()
        .map(|c| FileChecksum { path: text(&c[0]), hash: c[1].as_u64().unwrap() })
        .collect()
}

fn decode(bytes: &[u8]) -> VersionRecord {
    let v: Value = serde_json::from_slice(bytes).unwrap();
    let list = |name: &str| -> Vec<String> { v[name].as_array().unwrap().iter().map(text).collect() };
    let pointers = v["pointers"].as_array().unwrap().iter().map(|p| PointerFile {
        path: text(&p[0]),
        bytes: p[1].as_array().unwrap().iter().map(|b| b.as_u64().unwrap() as u8).collect(),
    });
    VersionRecord {
        seqno: v["seqno"].as_u64().unwrap(),
        parent: v["parent"].as_u64(),
        file_ids: list("file_ids").into_iter().map(FileId).collect(),
        dirs: list("dirs"),
        journals: list("journals"),
        pointers: pointers.collect(),
        checksums: decode_checksums(&v["checksums"]),
        journal_checksums: decode_checksums(&v["journal_checksums"]),
        is_snapshot: v["is_snapshot"].as_bool().unwrap(),
        ts_millis: v["ts_millis"].as_u64().unwrap(),
    }
}

// ---- drivers ----

type Disk = BTreeMap<PathBuf, Vec<u8>>;

/// A store that refuses to put after a number of puts.
struct Bucket {
    inner: MemObjectStore,
    puts_left: usize,
    puts: Vec<String>,
    fetched: Vec<String>,
}

impl Bucket {
    fn new() -> Self {
        Bucket { inner: MemObjectStore::new(), puts_left: usize::MAX, puts: vec![], fetched: vec![] }
    }

    fn put(&mut self, key: &str, bytes: Vec<u8>) -> Result<(), Error> {
        if self.puts_left == 0 {
            return Err(Error::Store(format!("injected put failure (key {key})")));
        }
        self.puts_left -= 1;
        self.puts.push(key.to_string());
        self.inner.put(key, bytes)
    }
}

fn replicate_at(
    repl: &mut Replicator,
    version: &LocalVersion,
    bucket: &mut Bucket,
    disk: &Disk,
    now: u64,
) -> Result<u64, Error> {
    let mut step = repl.replicate_once(version);
    let outcome = loop {
        step = match step {
            Step::Probe(probe) => {
                let present = bucket.inner.contains(&probe.key())?;
                probe.answer(present)
            }
            Step::Fetch(fetch) => {
                let object = bucket.inner.get(&fetch.key())?;
                bucket.fetched.push(fetch.key());
                fetch.answer(&object)
            }
            Step::Read(read) => {
                let bytes = disk.get(&version.files[read.index()].1).cloned();
                read.answer(bytes)
            }
            Step::PutFile(put) => {
                bucket.put(&put.key(), put.bytes().clone())?;
                put.done()
            }
            Step::PutJournal(put) => {
                bucket.put(&put.key(), put.bytes().clone())?;
                put.done()
            }
            Step::Clock(clock) => clock.answer(now),
            Step::PutRecord(put) => {
                bucket.put(&put.key(), encode(put.record()))?;
                put.done()
            }
            Step::PutSnapshot(put) => {
                bucket.put(&put.key(), encode(put.record()))?;
                put.done()
            }
            Step::Done(outcome) => break outcome,
            Step::Failed(e) => return Err(e),
        };
    };
    Ok(repl.finish(outcome))
}

fn replicate(
    repl: &mut Replicator,
    version: &LocalVersion,
    bucket: &mut Bucket,
    disk: &Disk,
) -> Result<u64, Error> {
    replicate_at(repl, version, bucket, disk, 1_000 + version.seqno)
}

fn resolve(bucket: &Bucket, layout: &Layout, target: &RestoreTarget) -> Result<VersionRecord, Error> {
    let keys = bucket.inner.list(&layout.versions_prefix())?;
    let mut search = resolve_version(keys, target.clone())?;
    loop {
        let record = decode(&bucket.inner.get(&search.key())?);
        match search.answer(record)? {
            Resolution::Found(record) => return Ok(record),
            Resolution::Continue(next) => search = next,
        }
    }
}

#[derive(Debug, Default, PartialEq)]
struct Tree {
    dirs: Vec<String>,
    files: BTreeMap<String, Vec<u8>>,
}

fn restore(
    bucket: &Bucket,
    layout: &Layout,
    target: RestoreTarget,
    occupied: bool,
) -> Result<(VersionRecord, Tree), Error> {
    let record = resolve(bucket, layout, &target)?;
    let plan = restore_to(layout, record, occupied, Some("db"), "/backup/db")?;
    assert_eq!(plan.staging, "db.fjallstream-restore-tmp");
    let mut tree = Tree::default();
    let mut step = plan.first;
    loop {
        let write = match step {
            RestoreStep::MakeDir(s) => {
                tree.dirs.push(s.path().clone());
                step = s.done();
                continue;
            }
            RestoreStep::FetchFile(s) => {
                let object = bucket.inner.get(s.key())?;
                s.answer(object)?
            }
            RestoreStep::FetchJournal(s) => {
                let object = bucket.inner.get(s.key())?;
                s.answer(&object)?
            }
            RestoreStep::Write(write) => write,
            RestoreStep::Swap(s) => return Ok((s.done().into_record(), tree)),
        };
        tree.files.insert(write.path().clone(), write.bytes().clone());
        step = write.done();
    }
}

/// Prune, stopping after `limit` deletions.
fn prune(repl: &Replicator, bucket: &mut Bucket, limit: usize) -> Result<(), Error> {
    let layout = repl.layout();
    let window = repl.prune(&bucket.inner.list(&layout.versions_prefix())?);
    let mut records = vec![];
    for seqno in &window.retained {
        records.push(decode(&bucket.inner.get(&layout.version(*seqno))?));
    }
    let mut journal_keys = vec![];
    for prefix in journal_prefixes(layout, &window.expired) {
        journal_keys.extend(bucket.inner.list(&prefix)?);
    }
    let file_keys = bucket.inner.list(&layout.files_prefix())?;
    let gone = deletions(layout, &window.expired, &records, &journal_keys, &file_keys);
    for key in gone.iter().take(limit) {
        bucket.inner.delete(key)?;
    }
    Ok(())
}

fn make_file(disk: &mut Disk, name: &str, content: &[u8]) -> (FileId, PathBuf) {
    let path = PathBuf::from("/src").join(name);
    disk.insert(path.clone(), content.to_vec());
    (FileId(name.to_string()), path)
}

fn version(seqno: u64, parent: Option<u64>, files: Vec<(FileId, PathBuf)>) -> LocalVersion {
    LocalVersion { seqno, parent, files, dirs: vec![], journals: vec![], pointers: vec![] }
}

fn layout() -> Layout {
    Layout::new("db", Generation("g".into()))
}

// ---- round trips ----

#[test]
fn replicate_then_restore_roundtrip() {
    let mut disk = Disk::new();
    let mut bucket = Bucket::new();
    let layout = || Layout::new("testdb", Generation("gen-1".into()));
    let mut repl = Replicator::new(layout(), ReplicateConfig::default());

    // Version 1: two files.
    let f_a = make_file(&mut disk, "0001.sst", b"alpha");
    let f_b = make_file(&mut disk, "0002.blob", b"bravo");
    let v1 = version(100, None, vec![f_a.clone(), f_b.clone()]);
    assert_eq!(replicate(&mut repl, &v1, &mut bucket, &disk).unwrap(), 100);

    // Version 2: f_a is unchanged (immutable, must dedup), f_b compacted into a new file.
    let f_c = make_file(&mut disk, "0003.sst", b"charlie");
    let v2 = version(200, Some(100), vec![f_a.clone(), f_c.clone()]);
    assert_eq!(replicate(&mut repl, &v2, &mut bucket, &disk).unwrap(), 200);

    // Restore latest: should land f_a + f_c at seqno 200.
    let (rec, tree) = restore(&bucket, &layout(), RestoreTarget::Latest, false).unwrap();
    assert_eq!(rec.seqno, 200);
    assert_eq!(tree.files["0001.sst"], b"alpha");
    assert_eq!(tree.files["0003.sst"], b"charlie");
    // f_b was not part of version 2, so it must not be restored.
    assert!(!tree.files.contains_key("0002.blob"));

    // Point-in-time: resolve at seqno 150 should pick version 100.
    let at_150 = resolve(&bucket, &layout(), &RestoreTarget::Seqno(150)).unwrap();
    assert_eq!(at_150.seqno, 100);
    assert_eq!(at_150.file_ids.len(), 2);
}

#[test]
fn immutable_files_upload_once() {
    let mut disk = Disk::new();
    let mut bucket = Bucket::new();
    let mut repl = Replicator::new(layout(), ReplicateConfig::default());

    let f = make_file(&mut disk, "same.sst", b"x");
    let v1 = version(1, None, vec![f.clone()]);
    let v2 = version(2, Some(1), vec![f.clone()]);
    replicate(&mut repl, &v1, &mut bucket, &disk).unwrap();

    // Change the file on disk after the first upload. The id is the same and the store already
    // has it, so it must be neither read nor uploaded again: the bucket keeps the original.
    make_file(&mut disk, "same.sst", b"TAMPERED");
    replicate(&mut repl, &v2, &mut bucket, &disk).unwrap();

    let got = bucket.inner.get(&layout().file(&f.0)).unwrap();
    assert_eq!(got, b"x", "immutable file must be uploaded once, not overwritten");
    assert_eq!(bucket.puts.iter().filter(|k| k.contains("/files/")).count(), 1);
}

#[test]
fn everything_captured_comes_back() {
    let mut disk = Disk::new();
    let mut bucket = Bucket::new();
    let mut repl = Replicator::new(layout(), ReplicateConfig::default());
    let f = make_file(&mut disk, "keyspaces/1/tables/7", b"table");
    let journal = vec![7u8; 100_000];
    let v = LocalVersion {
        seqno: 5,
        parent: None,
        files: vec![f],
        dirs: vec!["keyspaces".into(), "keyspaces/1".into(), "keyspaces/2/tables".into()],
        journals: vec![("0.jnl".into(), journal.clone()), ("1.jnl".into(), vec![])],
        pointers: vec![PointerFile { path: "keyspaces/1/current".into(), bytes: vec![1, 2] }],
    };
    replicate(&mut repl, &v, &mut bucket, &disk).unwrap();

    // Files first, then journals, the record last.
    assert_eq!(
        bucket.puts,
        vec![
            "db/generations/g/files/keyspaces/1/tables/7",
            "db/generations/g/journals/00000000000000000005/0.jnl",
            "db/generations/g/journals/00000000000000000005/1.jnl",
            "db/generations/g/versions/00000000000000000005.json",
        ]
    );
    // A journal is shipped compressed.
    let object = bucket.inner.get(&layout().journal(5, "0.jnl")).unwrap();
    assert!(object.len() < 1_000);
    assert_eq!(gunzip(&object).unwrap(), journal);

    let (rec, tree) = restore(&bucket, &layout(), RestoreTarget::Latest, false).unwrap();
    assert_eq!(tree.dirs, vec!["keyspaces", "keyspaces/1", "keyspaces/2/tables"]);
    let mut expected = BTreeMap::new();
    expected.insert("keyspaces/1/tables/7".to_string(), b"table".to_vec());
    expected.insert("0.jnl".to_string(), journal.clone());
    expected.insert("1.jnl".to_string(), vec![]);
    expected.insert("keyspaces/1/current".to_string(), vec![1, 2]);
    expected.insert("lock".to_string(), vec![]);
    assert_eq!(tree.files, expected);

    // The hash of each uploaded file and journal is on record.
    assert_eq!(rec.checksums.len(), 1);
    assert_eq!(rec.checksums[0].path, "keyspaces/1/tables/7");
    assert_eq!(rec.checksums[0].hash, hash64(b"table"));
    assert_eq!(rec.journal_checksums.len(), 2);
    assert_eq!(rec.journal_checksums[0].hash, hash64(&journal));
}

#[test]
fn an_empty_version_round_trips() {
    let mut bucket = Bucket::new();
    let mut repl = Replicator::new(layout(), ReplicateConfig::default());
    assert_eq!(replicate(&mut repl, &version(0, None, vec![]), &mut bucket, &Disk::new()).unwrap(), 0);
    let (rec, tree) = restore(&bucket, &layout(), RestoreTarget::Latest, false).unwrap();
    assert_eq!(rec.seqno, 0);
    assert_eq!(rec.parent, None);
    assert_eq!(tree.files.len(), 1);
    assert_eq!(tree.files["lock"], b"");
}

#[test]
fn a_file_named_twice_is_uploaded_once() {
    let mut disk = Disk::new();
    let mut bucket = Bucket::new();
    let mut repl = Replicator::new(layout(), ReplicateConfig::default());
    let f = make_file(&mut disk, "a", b"a");
    replicate(&mut repl, &version(1, None, vec![f.clone(), f]), &mut bucket, &disk).unwrap();
    assert_eq!(bucket.puts.len(), 2);
    let rec = resolve(&bucket, &layout(), &RestoreTarget::Latest).unwrap();
    assert_eq!(rec.file_ids.len(), 2);
    assert_eq!(repl.files_dropped(), 0);
}

// ---- vanished files ----

#[test]
fn c1_drops_vanished_file_and_counts_it() {
    let mut disk = Disk::new();
    let mut bucket = Bucket::new();

    // One real file on disk, one "ghost" path that does not exist (an obsolete file deleted after
    // capture). The real one must be uploaded, the ghost dropped and counted.
    let real = make_file(&mut disk, "real.sst", b"hello");
    let ghost = (FileId("ghost.sst".into()), PathBuf::from("/src/ghost.sst"));
    let v = version(1, None, vec![real, ghost]);
    let mut repl = Replicator::new(layout(), ReplicateConfig::default());

    replicate(&mut repl, &v, &mut bucket, &disk).unwrap();
    assert_eq!(repl.files_dropped(), 1, "the vanished-file guard must have fired exactly once");

    // The committed record must reference only the file that actually exists.
    let rec = resolve(&bucket, &layout(), &RestoreTarget::Latest).unwrap();
    assert_eq!(rec.file_ids, vec![FileId("real.sst".into())]);
}

#[test]
fn a_vanished_file_that_the_bucket_has_is_kept() {
    let mut disk = Disk::new();
    let mut bucket = Bucket::new();
    let mut repl = Replicator::new(layout(), ReplicateConfig::default());
    let f = make_file(&mut disk, "a", b"a");
    replicate(&mut repl, &version(1, None, vec![f.clone()]), &mut bucket, &disk).unwrap();
    disk.clear();
    replicate(&mut repl, &version(2, Some(1), vec![f]), &mut bucket, &disk).unwrap();
    assert_eq!(repl.files_dropped(), 0);
    let rec = resolve(&bucket, &layout(), &RestoreTarget::Latest).unwrap();
    assert_eq!(rec.file_ids, vec![FileId("a".into())]);
    // Its hash is known from the first upload.
    assert_eq!(rec.checksums[0].hash, hash64(b"a"));
}

// ---- crashes ----

#[test]
fn a_stopped_upload_leaves_no_version_record() {
    // Two files, one journal and the record: whichever put fails, nothing is resolvable before
    // the record is written.
    for puts in 0..4 {
        let mut disk = Disk::new();
        let mut bucket = Bucket::new();
        bucket.puts_left = puts;
        let mut repl = Replicator::new(layout(), ReplicateConfig::default());
        let a = make_file(&mut disk, "a", b"a");
        let b = make_file(&mut disk, "b", b"b");
        let mut v = version(1, None, vec![a, b]);
        v.journals.push(("0.jnl".into(), vec![1]));
        let result = replicate(&mut repl, &v, &mut bucket, &disk);
        assert!(matches!(result, Err(Error::Store(_))), "the injected failure must surface");
        let resolved = resolve(&bucket, &layout(), &RestoreTarget::Latest);
        assert!(matches!(resolved, Err(Error::NotFound(what)) if what == "no version records in generation"));

        // The next try goes on where this one stopped.
        bucket.puts_left = usize::MAX;
        let before = bucket.puts.iter().filter(|k| k.contains("/files/")).count();
        replicate(&mut repl, &v, &mut bucket, &disk).unwrap();
        let after = bucket.puts.iter().filter(|k| k.contains("/files/")).count();
        assert_eq!(after, 2);
        assert_eq!(before, puts.min(2));
        assert!(restore(&bucket, &layout(), RestoreTarget::Latest, false).is_ok());
    }
}

#[test]
fn a_later_version_leaves_an_earlier_one_as_it_was() {
    let mut disk = Disk::new();
    let mut bucket = Bucket::new();
    let mut repl = Replicator::new(layout(), ReplicateConfig::default());
    let a = make_file(&mut disk, "a", b"a");
    let mut v1 = version(1, None, vec![a.clone()]);
    v1.journals.push(("0.jnl".into(), vec![1]));
    replicate(&mut repl, &v1, &mut bucket, &disk).unwrap();
    let (_, before) = restore(&bucket, &layout(), RestoreTarget::Seqno(1), false).unwrap();
    let b = make_file(&mut disk, "b", b"b");
    let mut v2 = version(2, Some(1), vec![a, b]);
    v2.journals.push(("0.jnl".into(), vec![2]));
    replicate(&mut repl, &v2, &mut bucket, &disk).unwrap();
    let (rec, after) = restore(&bucket, &layout(), RestoreTarget::Seqno(1), false).unwrap();
    assert_eq!(rec.seqno, 1);
    assert_eq!(after, before);
}

// ---- point in time ----

#[test]
fn the_newest_version_at_or_before_the_target_is_found() {
    let mut bucket = Bucket::new();
    let mut repl = Replicator::new(layout(), ReplicateConfig::default());
    let disk = Disk::new();
    for (seqno, now) in [(9u64, 500u64), (10, 700), (100, 900)] {
        replicate_at(&mut repl, &version(seqno, None, vec![]), &mut bucket, &disk, now).unwrap();
    }
    let find = |target: RestoreTarget| resolve(&bucket, &layout(), &target).map(|r| r.seqno).ok();
    assert_eq!(find(RestoreTarget::Latest), Some(100));
    assert_eq!(find(RestoreTarget::Seqno(8)), None);
    assert_eq!(find(RestoreTarget::Seqno(9)), Some(9));
    assert_eq!(find(RestoreTarget::Seqno(99)), Some(10));
    assert_eq!(find(RestoreTarget::Seqno(u64::MAX)), Some(100));
    assert_eq!(find(RestoreTarget::TimestampMillis(499)), None);
    assert_eq!(find(RestoreTarget::TimestampMillis(500)), Some(9));
    assert_eq!(find(RestoreTarget::TimestampMillis(899)), Some(10));
    assert_eq!(find(RestoreTarget::TimestampMillis(900)), Some(100));
    let before = resolve(&bucket, &layout(), &RestoreTarget::Seqno(8));
    assert!(matches!(before, Err(Error::NotFound(what)) if what == "no version matches restore target"));
}

#[test]
fn every_version_of_a_history_restores_by_its_seqno() {
    let mut disk = Disk::new();
    let mut bucket = Bucket::new();
    let mut repl = Replicator::new(layout(), ReplicateConfig::default());
    let shared = make_file(&mut disk, "shared", b"shared");
    for seqno in 1..6u64 {
        let own = make_file(&mut disk, &format!("own-{seqno}"), &[seqno as u8]);
        let mut v = version(seqno, None, vec![shared.clone(), own]);
        v.journals.push(("0.jnl".into(), vec![seqno as u8; 10]));
        replicate(&mut repl, &v, &mut bucket, &disk).unwrap();
    }
    for seqno in 1..6u64 {
        let (rec, tree) = restore(&bucket, &layout(), RestoreTarget::Seqno(seqno), false).unwrap();
        assert_eq!(rec.seqno, seqno);
        assert_eq!(tree.files.len(), 4);
        assert_eq!(tree.files["shared"], b"shared");
        assert_eq!(tree.files[&format!("own-{seqno}")], vec![seqno as u8]);
        assert_eq!(tree.files["0.jnl"], vec![seqno as u8; 10]);
    }
}

#[test]
fn recorded_times_advance_where_the_clock_does_not() {
    let mut bucket = Bucket::new();
    let mut repl = Replicator::new(layout(), ReplicateConfig::default());
    let disk = Disk::new();
    let mut times = vec![];
    for (seqno, now) in [(1u64, 1_000u64), (2, 1_000), (3, 900), (4, 5_000), (5, u64::MAX), (6, 0)] {
        replicate_at(&mut repl, &version(seqno, None, vec![]), &mut bucket, &disk, now).unwrap();
        times.push(resolve(&bucket, &layout(), &RestoreTarget::Latest).unwrap().ts_millis);
    }
    assert_eq!(times, vec![1_000, 1_001, 1_002, 5_000, u64::MAX, u64::MAX]);
}

// ---- restore guards ----

#[test]
fn an_occupied_target_is_never_clobbered() {
    let mut bucket = Bucket::new();
    let mut repl = Replicator::new(layout(), ReplicateConfig::default());
    replicate(&mut repl, &version(1, None, vec![]), &mut bucket, &Disk::new()).unwrap();
    let err = restore(&bucket, &layout(), RestoreTarget::Latest, true);
    assert!(
        matches!(err, Err(Error::Store(what)) if what == "restore target /backup/db is not empty")
    );
}

#[test]
fn a_target_without_a_name_cannot_be_staged() {
    let mut bucket = Bucket::new();
    let mut repl = Replicator::new(layout(), ReplicateConfig::default());
    replicate(&mut repl, &version(1, None, vec![]), &mut bucket, &Disk::new()).unwrap();
    let record = resolve(&bucket, &layout(), &RestoreTarget::Latest).unwrap();
    let err = restore_to(&layout(), record, false, None, "/");
    assert!(matches!(err, Err(Error::Store(what)) if what == "restore target / has no final component"));
}

#[test]
fn a_missing_file_or_journal_fails_loudly() {
    let mut disk = Disk::new();
    let mut bucket = Bucket::new();
    let mut repl = Replicator::new(layout(), ReplicateConfig::default());
    let a = make_file(&mut disk, "a", b"a");
    let mut v = version(1, None, vec![a]);
    v.journals.push(("0.jnl".into(), vec![1]));
    replicate(&mut repl, &v, &mut bucket, &disk).unwrap();
    for key in [layout().file(&FileId("a".into())), layout().journal(1, "0.jnl")] {
        let object = bucket.inner.get(&key).unwrap();
        bucket.inner.delete(&key).unwrap();
        let err = restore(&bucket, &layout(), RestoreTarget::Latest, false);
        assert!(matches!(err, Err(Error::NotFound(k)) if k == key));
        bucket.inner.put(&key, object).unwrap();
    }
    assert!(restore(&bucket, &layout(), RestoreTarget::Latest, false).is_ok());
}

#[test]
fn a_corrupted_object_is_refused() {
    let mut disk = Disk::new();
    let mut bucket = Bucket::new();
    let mut repl = Replicator::new(layout(), ReplicateConfig::default());
    let a = make_file(&mut disk, "tables/1", b"content");
    let mut v = version(1, None, vec![a]);
    v.journals.push(("0.jnl".into(), vec![1, 2, 3]));
    replicate(&mut repl, &v, &mut bucket, &disk).unwrap();

    // Same-length garbage in place of the file.
    let key = layout().file(&FileId("tables/1".into()));
    bucket.inner.put(&key, vec![0xAB; 7]).unwrap();
    let err = restore(&bucket, &layout(), RestoreTarget::Latest, false);
    assert!(matches!(err, Err(Error::ChecksumMismatch(path)) if path == "tables/1"));
    // One changed byte.
    bucket.inner.put(&key, b"cOntent".to_vec()).unwrap();
    let err = restore(&bucket, &layout(), RestoreTarget::Latest, false);
    assert!(matches!(err, Err(Error::ChecksumMismatch(path)) if path == "tables/1"));
    bucket.inner.put(&key, b"content".to_vec()).unwrap();

    // Another journal in place of the journal, and something that is none.
    let key = layout().journal(1, "0.jnl");
    let other = fjallstream::compress::gzip(&[1, 2, 4]).unwrap();
    bucket.inner.put(&key, other).unwrap();
    let err = restore(&bucket, &layout(), RestoreTarget::Latest, false);
    assert!(matches!(err, Err(Error::ChecksumMismatch(path)) if path == "0.jnl"));
    bucket.inner.put(&key, b"no gzip stream".to_vec()).unwrap();
    let err = restore(&bucket, &layout(), RestoreTarget::Latest, false);
    assert!(matches!(err, Err(Error::Io { path, .. }) if path == "<gunzip>"));
}

#[test]
fn a_writer_that_starts_anew_records_every_hash() {
    let mut disk = Disk::new();
    let mut bucket = Bucket::new();
    let a = make_file(&mut disk, "a", b"a");
    let mut first = Replicator::new(layout(), ReplicateConfig::default());
    replicate(&mut first, &version(1, None, vec![a.clone()]), &mut bucket, &disk).unwrap();
    // This one did not upload the file, and fetches it once to hash it.
    let mut second = Replicator::new(layout(), ReplicateConfig::default());
    for seqno in 2..4 {
        replicate(&mut second, &version(seqno, Some(1), vec![a.clone()]), &mut bucket, &disk).unwrap();
        let (rec, tree) = restore(&bucket, &layout(), RestoreTarget::Latest, false).unwrap();
        assert_eq!(rec.checksums.len(), 1);
        assert_eq!(rec.checksums[0].hash, hash64(b"a"));
        assert_eq!(tree.files["a"], b"a");
    }
    let key = layout().file(&a.0);
    assert_eq!(bucket.fetched, vec![key.clone()]);
    // So an altered object is refused there, too.
    bucket.inner.put(&key, b"b".to_vec()).unwrap();
    let err = restore(&bucket, &layout(), RestoreTarget::Latest, false);
    assert!(matches!(err, Err(Error::ChecksumMismatch(path)) if path == "a"));
}

#[test]
fn a_writer_that_takes_over_need_not_fetch() {
    let mut disk = Disk::new();
    let mut bucket = Bucket::new();
    let a = make_file(&mut disk, "a", b"a");
    let mut first = Replicator::new(layout(), ReplicateConfig::default());
    replicate_at(&mut first, &version(1, None, vec![a.clone()]), &mut bucket, &disk, 5_000).unwrap();
    let newest = resolve(&bucket, &layout(), &RestoreTarget::Latest).unwrap();
    let mut second = Replicator::new(layout(), ReplicateConfig::default());
    assert_eq!(second.resume(Ok(newest)).unwrap(), Some(1));
    replicate_at(&mut second, &version(2, Some(1), vec![a]), &mut bucket, &disk, 4_000).unwrap();
    assert!(bucket.fetched.is_empty());
    let rec = resolve(&bucket, &layout(), &RestoreTarget::Latest).unwrap();
    assert_eq!(rec.checksums[0].hash, hash64(b"a"));
    assert_eq!(rec.ts_millis, 5_001, "recorded times advance across writers");
}

#[test]
fn without_a_version_there_is_nothing_to_take_over() {
    let mut repl = Replicator::new(layout(), ReplicateConfig::default());
    let bucket = Bucket::new();
    assert_eq!(repl.resume(resolve(&bucket, &layout(), &RestoreTarget::Latest)).unwrap(), None);
    let down = repl.resume(Err(Error::Store("down".into())));
    assert!(matches!(down, Err(Error::Store(what)) if what == "down"));
}

#[test]
fn a_retried_upload_records_every_hash() {
    let mut disk = Disk::new();
    let mut bucket = Bucket::new();
    bucket.puts_left = 1;
    let mut repl = Replicator::new(layout(), ReplicateConfig::default());
    let a = make_file(&mut disk, "a", b"a");
    let b = make_file(&mut disk, "b", b"b");
    let v = version(1, None, vec![a, b]);
    assert!(replicate(&mut repl, &v, &mut bucket, &disk).is_err());
    bucket.puts_left = usize::MAX;
    replicate(&mut repl, &v, &mut bucket, &disk).unwrap();
    let rec = resolve(&bucket, &layout(), &RestoreTarget::Latest).unwrap();
    let hashes: Vec<u64> = rec.checksums.iter().map(|c| c.hash).collect();
    assert_eq!(hashes, vec![hash64(b"a"), hash64(b"b")]);
}

// ---- re-base points ----

#[test]
fn every_nth_version_is_a_rebase_point() {
    let mut bucket = Bucket::new();
    let cfg = ReplicateConfig {
        interval: Duration::from_secs(1),
        snapshot_every: Some(3),
        retention_versions: 100,
    };
    let mut repl = Replicator::new(layout(), cfg);
    let mut marks = vec![];
    for seqno in 1..8 {
        replicate(&mut repl, &version(seqno, None, vec![]), &mut bucket, &Disk::new()).unwrap();
        let rec = decode(&bucket.inner.get(&layout().version(seqno)).unwrap());
        marks.push(rec.is_snapshot);
        let copy = bucket.inner.get(&layout().snapshot(seqno));
        assert_eq!(copy.is_ok(), rec.is_snapshot);
        if let Ok(copy) = copy {
            assert_eq!(copy, bucket.inner.get(&layout().version(seqno)).unwrap());
        }
    }
    assert_eq!(marks, vec![false, false, true, false, false, true, false]);
}

#[test]
fn with_zero_every_version_is_a_rebase_point() {
    let mut bucket = Bucket::new();
    let cfg = ReplicateConfig { snapshot_every: Some(0), ..ReplicateConfig::default() };
    let mut repl = Replicator::new(layout(), cfg);
    for seqno in 1..4 {
        replicate(&mut repl, &version(seqno, None, vec![]), &mut bucket, &Disk::new()).unwrap();
        assert!(bucket.inner.contains(&layout().snapshot(seqno)).unwrap());
    }
}

#[test]
fn rebasing_can_be_disabled() {
    let mut bucket = Bucket::new();
    let cfg = ReplicateConfig { snapshot_every: None, ..ReplicateConfig::default() };
    let mut repl = Replicator::new(layout(), cfg);
    for seqno in 1..100 {
        replicate(&mut repl, &version(seqno, None, vec![]), &mut bucket, &Disk::new()).unwrap();
    }
    assert!(bucket.puts.iter().all(|k| !k.contains("/snapshots/")));
}

#[test]
fn the_default_configuration() {
    let cfg = ReplicateConfig::default();
    assert_eq!(cfg.interval, Duration::from_secs(10));
    assert_eq!(cfg.snapshot_every, Some(64));
    assert_eq!(cfg.retention_versions, 256);
    let repl = Replicator::new(layout(), cfg);
    assert_eq!(repl.config().interval, Duration::from_secs(10));
    assert_eq!(repl.files_dropped(), 0);
}

// ---- retention ----

fn five_versions(bucket: &mut Bucket) -> Replicator {
    let mut disk = Disk::new();
    let cfg = ReplicateConfig {
        interval: Duration::from_secs(1),
        snapshot_every: None,
        retention_versions: 2,
    };
    let mut repl = Replicator::new(layout(), cfg);
    let mut f = Vec::new();
    for n in ["a", "b", "c", "d", "e", "f"] {
        f.push(make_file(&mut disk, n, format!("content-of-{n}").as_bytes()));
    }
    let by = |idxs: &[usize]| -> Vec<_> { idxs.iter().map(|&i| f[i].clone()).collect() };

    // Overlapping file sets, increasing seqnos.
    let versions = [
        (10u64, by(&[0, 1])), // a,b
        (20, by(&[0, 2])),    // a,c
        (30, by(&[2, 3])),    // c,d
        (40, by(&[3, 4])),    // d,e
        (50, by(&[4, 5])),    // e,f
    ];
    for (seqno, fl) in versions {
        let mut v = version(seqno, None, fl);
        v.journals.push(("0.jnl".into(), vec![seqno as u8]));
        replicate(&mut repl, &v, bucket, &disk).unwrap();
    }
    repl
}

#[test]
fn prune_keeps_window_and_deletes_only_unreferenced_files() {
    let mut bucket = Bucket::new();
    let repl = five_versions(&mut bucket);

    prune(&repl, &mut bucket, usize::MAX).unwrap();

    let store = &bucket.inner;
    let l = layout();

    // Only the newest 2 version records survive.
    let versions = store.list(&l.versions_prefix()).unwrap();
    assert_eq!(versions.len(), 2, "retention window must keep exactly 2 versions");

    // Retained set is {d,e,f} (v40={d,e}, v50={e,f}); a,b,c are referenced only by pruned versions.
    for gone in ["a", "b", "c"] {
        assert!(
            !store.contains(&l.file(&FileId(gone.into()))).unwrap(),
            "file {gone} should be deleted"
        );
    }
    for kept in ["d", "e", "f"] {
        assert!(
            store.contains(&l.file(&FileId(kept.into()))).unwrap(),
            "file {kept} is still referenced by a retained version and must survive"
        );
    }

    // The retained versions are still fully restorable.
    let (rec, _) = restore(&bucket, &l, RestoreTarget::Latest, false).unwrap();
    assert_eq!(rec.seqno, 50);
    let (rec, _) = restore(&bucket, &l, RestoreTarget::Seqno(40), false).unwrap();
    assert_eq!(rec.seqno, 40);

    // The journals of the pruned versions are gone, those of the retained ones are not.
    let journals = bucket.inner.list("db/generations/g/journals").unwrap();
    assert_eq!(journals, vec![l.journal(40, "0.jnl"), l.journal(50, "0.jnl")]);
}

#[test]
fn a_stopped_prune_never_leaves_a_dangling_record() {
    for limit in 0..15 {
        let mut bucket = Bucket::new();
        let repl = five_versions(&mut bucket);
        prune(&repl, &mut bucket, limit).unwrap();
        for key in bucket.inner.list(&layout().versions_prefix()).unwrap() {
            let seqno = Layout::seqno_from_version_key(&key).unwrap();
            let restored = restore(&bucket, &layout(), RestoreTarget::Seqno(seqno), false);
            assert!(restored.is_ok(), "after {limit} deletions, version {seqno} dangles");
        }
    }
}

#[test]
fn a_short_history_is_not_pruned() {
    let mut bucket = Bucket::new();
    let mut repl = Replicator::new(layout(), ReplicateConfig::default());
    replicate(&mut repl, &version(1, None, vec![]), &mut bucket, &Disk::new()).unwrap();
    let window = repl.prune(&bucket.inner.list(&layout().versions_prefix()).unwrap());
    assert_eq!(window.expired, Vec::<u64>::new());
    assert_eq!(window.retained, vec![1]);
}

#[test]
fn keys_that_are_no_version_records_are_not_pruned() {
    let repl = Replicator::new(
        layout(),
        ReplicateConfig { retention_versions: 1, ..ReplicateConfig::default() },
    );
    let keys = vec![
        "db/generations/g/versions/9.json".to_string(),
        "db/generations/h/versions/00000000000000000001.json".to_string(),
        "db/generations/g/versions/00000000000000000007.json".to_string(),
        "db/generations/g/versions/00000000000000000003.json".to_string(),
        "db/generations/g/versions/00000000000000000007.json".to_string(),
    ];
    let window = repl.prune(&keys);
    assert_eq!(window.expired, vec![3]);
    assert_eq!(window.retained, vec![7]);
}
