//! Real fjall databases, captured, replicated to a directory, restored, and opened again.

use fjall::{Database, Keyspace, KeyspaceCreateOptions};
use fjallstream::capture::{capture, Attempt, CaptureStep, Captured, EntryKind, Walk};
use fjallstream::layout::Layout;
use fjallstream::listing::ListStep;
use fjallstream::restore::{resolve_version, restore_to, Resolution, RestoreStep, Restored};
use fjallstream::retention::{deletions, journal_prefixes};
use fjallstream::types::FileChecksum;
use fjallstream::upload::Step;
use fjallstream::{
    Error, FileId, FollowConfig, Follower, Generation, LocalObjectStore, LocalVersion, PointerFile,
    ReplicateConfig, Replicator, RestoreTarget, VersionRecord,
};
use serde_json::Value;
use std::cell::Cell;
use std::future::Future;
use std::io::ErrorKind;
use std::path::{Path, PathBuf};
use std::time::{Duration, SystemTime, UNIX_EPOCH};
use tempfile::tempdir;

fn block_on<F: Future>(f: F) -> F::Output {
    tokio::runtime::Builder::new_current_thread().build().unwrap().block_on(f)
}

fn layout() -> Layout {
    Layout::new("db", Generation("g".into()))
}

fn io(path: &Path, source: std::io::Error) -> Error {
    Error::Io { path: path.display().to_string(), source }
}

/// `None` if it is gone.
fn found<T>(result: std::io::Result<T>, path: &Path) -> Result<Option<T>, Error> {
    match result {
        Ok(value) => Ok(Some(value)),
        Err(e) if e.kind() == ErrorKind::NotFound => Ok(None),
        Err(e) => Err(io(path, e)),
    }
}

// ---- a bucket in a directory ----

struct Bucket {
    names: LocalObjectStore,
    puts_left: Cell<usize>,
    gets_left: Cell<usize>,
}

impl Bucket {
    fn new(root: &Path) -> Self {
        Bucket {
            names: LocalObjectStore::new(root.to_str().unwrap()),
            puts_left: Cell::new(usize::MAX),
            gets_left: Cell::new(usize::MAX),
        }
    }

    fn spend(left: &Cell<usize>, what: &str) -> Result<(), Error> {
        if left.get() == 0 {
            return Err(Error::Store(format!("injected {what} failure")));
        }
        left.set(left.get() - 1);
        Ok(())
    }

    async fn put(&self, key: &str, bytes: &[u8]) -> Result<(), Error> {
        Self::spend(&self.puts_left, "put")?;
        let path = PathBuf::from(self.names.path_for(key));
        let tmp = PathBuf::from(self.names.tmp_path_for(key));
        tokio::fs::create_dir_all(path.parent().unwrap()).await.map_err(|e| io(&path, e))?;
        tokio::fs::write(&tmp, bytes).await.map_err(|e| io(&tmp, e))?;
        tokio::fs::rename(&tmp, &path).await.map_err(|e| io(&path, e))
    }

    async fn get(&self, key: &str) -> Result<Vec<u8>, Error> {
        Self::spend(&self.gets_left, "get")?;
        let path = PathBuf::from(self.names.path_for(key));
        let bytes = found(tokio::fs::read(&path).await, &path)?;
        bytes.ok_or_else(|| Error::NotFound(key.to_string()))
    }

    async fn list(&self, prefix: &str) -> Result<Vec<String>, Error> {
        let mut step = self.names.list(prefix);
        loop {
            let mut read = match step {
                ListStep::ReadDir(read) => read,
                ListStep::Done(keys) => return Ok(keys),
            };
            let dir = Path::new(&self.names.root).join(read.dir());
            if let Some(mut rd) = found(tokio::fs::read_dir(&dir).await, &dir)? {
                while let Some(entry) = rd.next_entry().await.map_err(|e| io(&dir, e))? {
                    let is_dir = entry.file_type().await.map_err(|e| io(&dir, e))?.is_dir();
                    let path = entry.path();
                    let rel = path.strip_prefix(&self.names.root).unwrap();
                    read.entry(rel.to_str().unwrap(), is_dir);
                }
            }
            step = read.done();
        }
    }

    async fn delete(&self, key: &str) -> Result<(), Error> {
        let path = PathBuf::from(self.names.path_for(key));
        found(tokio::fs::remove_file(&path).await, &path).map(|_| ())
    }

    async fn contains(&self, key: &str) -> Result<bool, Error> {
        let path = PathBuf::from(self.names.path_for(key));
        Ok(tokio::fs::try_exists(&path).await.map_err(|e| io(&path, e))?)
    }
}

// ---- version records as JSON ----

fn strings(list: &[String]) -> Value {
    Value::Array(list.iter().map(|s| Value::from(s.as_str())).collect())
}

fn checksums(list: &[FileChecksum]) -> Value {
    let one = |c: &FileChecksum| Value::Array(vec![Value::from(c.path.as_str()), Value::from(c.hash)]);
    Value::Array(list.iter().map(one).collect())
}

fn encode(r: &VersionRecord) -> Vec<u8> {
    let mut m = serde_json::Map::new();
    m.insert("seqno".into(), Value::from(r.seqno));
    m.insert("parent".into(), r.parent.map_or(Value::Null, Value::from));
    let ids: Vec<String> = r.file_ids.iter().map(|id| id.0.clone()).collect();
    m.insert("file_ids".into(), strings(&ids));
    m.insert("dirs".into(), strings(&r.dirs));
    m.insert("journals".into(), strings(&r.journals));
    let pointers = r.pointers.iter().map(|p| {
        let bytes = p.bytes.iter().map(|b| Value::from(*b)).collect();
        Value::Array(vec![Value::from(p.path.as_str()), Value::Array(bytes)])
    });
    m.insert("pointers".into(), Value::Array(pointers.collect()));
    m.insert("checksums".into(), checksums(&r.checksums));
    m.insert("journal_checksums".into(), checksums(&r.journal_checksums));
    m.insert("is_snapshot".into(), Value::from(r.is_snapshot));
    m.insert("ts_millis".into(), Value::from(r.ts_millis));
    serde_json::to_vec(&Value::Object(m)).unwrap()
}

fn text(v: &Value) -> String {
    v.as_str().unwrap().to_string()
}

fn decode(bytes: &[u8]) -> VersionRecord {
    let v: Value = serde_json::from_slice(bytes).unwrap();
    let list = |name: &str| -> Vec<String> { v[name].as_array().unwrap().iter().map(text).collect() };
    let sums = |name: &str| -> Vec<FileChecksum> {
        let one = |c: &Value| FileChecksum { path: text(&c[0]), hash: c[1].as_u64().unwrap() };
        v[name].as_array().unwrap().iter().map(one).collect()
    };
    let pointers = v["pointers"].as_array().unwrap().iter().map(|p| PointerFile {
        path: text(&p[0]),
        bytes: p[1].as_array().unwrap().iter().map(|b| b.as_u64().unwrap() as u8).collect(),
    });
    VersionRecord {
        seqno: v["seqno"].as_u64().unwrap(),
        parent: v["parent"].as_u64(),
        file_ids: list("file_ids").into_iter().map(FileId).collect(),
        dirs: list("dirs"),
        journals: list("journals"),
        pointers: pointers.collect(),
        checksums: sums("checksums"),
        journal_checksums: sums("journal_checksums"),
        is_snapshot: v["is_snapshot"].as_bool().unwrap(),
        ts_millis: v["ts_millis"].as_u64().unwrap(),
    }
}

// ---- drivers ----

async fn walk_tree(base: &Path) -> Result<Walk, Error> {
    let mut walk = Walk::new();
    let mut stack = vec![base.to_path_buf()];
    while let Some(dir) = stack.pop() {
        let mut rd = tokio::fs::read_dir(&dir).await.map_err(|e| io(&dir, e))?;
        while let Some(entry) = rd.next_entry().await.map_err(|e| io(&dir, e))? {
            let path = entry.path();
            let is_dir = entry.file_type().await.map_err(|e| io(&path, e))?.is_dir();
            let rel = path.strip_prefix(base).unwrap().to_string_lossy().into_owned();
            let name = entry.file_name().to_string_lossy().into_owned();
            match walk.visit(&rel, &name, is_dir, path.clone()) {
                EntryKind::Directory => stack.push(path),
                EntryKind::Pointer => {
                    let bytes = tokio::fs::read(&path).await.map_err(|e| io(&path, e))?;
                    walk.pointer(&rel, bytes);
                }
                _ => {}
            }
        }
    }
    Ok(walk)
}

async fn read_between_lengths(path: &Path) -> Result<Option<(u64, Vec<u8>, u64)>, Error> {
    let Some(before) = found(tokio::fs::metadata(path).await, path)? else {
        return Ok(None);
    };
    let Some(bytes) = found(tokio::fs::read(path).await, path)? else {
        return Ok(None);
    };
    let Some(after) = found(tokio::fs::metadata(path).await, path)? else {
        return Ok(None);
    };
    Ok(Some((before.len(), bytes, after.len())))
}

async fn try_capture(db: &Database, path: &Path, attempt: Attempt) -> Result<Result<Captured, Attempt>, Error> {
    let before = db.keyspace_count();
    let mut step = match walk_tree(path).await {
        Ok(walk) => attempt.walked(walk, before, db.keyspace_count()),
        Err(Error::Io { source, .. }) if source.kind() == ErrorKind::NotFound => attempt.vanished(),
        Err(e) => return Err(e),
    };
    loop {
        step = match step {
            CaptureStep::Again(next) => return Ok(Err(next)),
            CaptureStep::GiveUp(e) => return Err(e),
            CaptureStep::CheckPointer(check) => {
                let pointer = path.join(check.path());
                let now = found(tokio::fs::read(&pointer).await, &pointer)?;
                check.answer(now)
            }
            CaptureStep::ListJournals(list) => {
                let mut names = vec![];
                let mut rd = tokio::fs::read_dir(path).await.map_err(|e| io(path, e))?;
                while let Some(entry) = rd.next_entry().await.map_err(|e| io(path, e))? {
                    names.push(entry.file_name().to_string_lossy().into_owned());
                }
                list.answer(&names)
            }
            CaptureStep::ReadJournal(read) => {
                let outcome = read_between_lengths(read.path()).await?;
                read.answer(outcome)
            }
            CaptureStep::ReadSeqno(read) => return Ok(Ok(read.answer(db.seqno()))),
        };
    }
}

/// The captured version, with the snapshot that pins its files.
async fn capture_db(
    db: &Database,
    path: &Path,
    keyspaces: &[&Keyspace],
    parent: Option<u64>,
) -> Result<(Captured, fjall::Snapshot), Error> {
    for ks in keyspaces {
        ks.rotate_memtable_and_wait().map_err(|e| Error::Fjall(e.to_string()))?;
    }
    let mut attempt = capture(parent);
    loop {
        let snapshot = db.snapshot();
        match try_capture(db, path, attempt).await? {
            Ok(captured) => return Ok((captured, snapshot)),
            Err(next) => attempt = next,
        }
    }
}

async fn replicate(repl: &mut Replicator, version: &LocalVersion, bucket: &Bucket) -> Result<u64, Error> {
    let mut step = repl.replicate_once(version);
    let outcome = loop {
        step = match step {
            Step::Probe(probe) => {
                let present = bucket.contains(&probe.key()).await?;
                probe.answer(present)
            }
            Step::Fetch(fetch) => {
                let object = bucket.get(&fetch.key()).await?;
                fetch.answer(&object)
            }
            Step::Read(read) => {
                let path = &version.files[read.index()].1;
                let bytes = found(tokio::fs::read(path).await, path)?;
                read.answer(bytes)
            }
            Step::PutFile(put) => {
                bucket.put(&put.key(), put.bytes()).await?;
                put.done()
            }
            Step::PutJournal(put) => {
                bucket.put(&put.key(), put.bytes()).await?;
                put.done()
            }
            Step::Clock(clock) => {
                let now = SystemTime::now().duration_since(UNIX_EPOCH).unwrap();
                clock.answer(now.as_millis() as u64)
            }
            Step::PutRecord(put) => {
                bucket.put(&put.key(), &encode(put.record())).await?;
                put.done()
            }
            Step::PutSnapshot(put) => {
                bucket.put(&put.key(), &encode(put.record())).await?;
                put.done()
            }
            Step::Done(outcome) => break outcome,
            Step::Failed(e) => return Err(e),
        };
    };
    Ok(repl.finish(outcome))
}

async fn resolve(bucket: &Bucket, target: &RestoreTarget) -> Result<VersionRecord, Error> {
    let keys = bucket.list(&layout().versions_prefix()).await?;
    let mut search = resolve_version(keys, target.clone())?;
    loop {
        let record = decode(&bucket.get(&search.key()).await?);
        match search.answer(record)? {
            Resolution::Found(record) => return Ok(record),
            Resolution::Continue(next) => search = next,
        }
    }
}

async fn write_file(base: &Path, rel: &str, bytes: &[u8]) -> Result<(), Error> {
    let out = base.join(rel);
    tokio::fs::create_dir_all(out.parent().unwrap()).await.map_err(|e| io(&out, e))?;
    tokio::fs::write(&out, bytes).await.map_err(|e| io(&out, e))
}

async fn restore_record(
    bucket: &Bucket,
    record: VersionRecord,
    dst: &Path,
) -> Result<Restored, Error> {
    let occupied = match found(tokio::fs::read_dir(dst).await, dst)? {
        Some(mut rd) => rd.next_entry().await.map_err(|e| io(dst, e))?.is_some(),
        None => false,
    };
    let name = dst.file_name().and_then(|n| n.to_str());
    let plan = restore_to(&layout(), record, occupied, name, &dst.display().to_string())?;
    let staging = dst.with_file_name(&plan.staging);
    let _ = tokio::fs::remove_dir_all(&staging).await;
    tokio::fs::create_dir_all(&staging).await.map_err(|e| io(&staging, e))?;
    let mut step = plan.first;
    loop {
        let write = match step {
            RestoreStep::MakeDir(s) => {
                let dir = staging.join(s.path());
                tokio::fs::create_dir_all(&dir).await.map_err(|e| io(&dir, e))?;
                step = s.done();
                continue;
            }
            RestoreStep::FetchFile(s) => {
                let object = bucket.get(s.key()).await?;
                s.answer(object)?
            }
            RestoreStep::FetchJournal(s) => {
                let object = bucket.get(s.key()).await?;
                s.answer(&object)?
            }
            RestoreStep::Write(write) => write,
            RestoreStep::Swap(s) => {
                if tokio::fs::try_exists(dst).await.unwrap() {
                    tokio::fs::remove_dir(dst).await.map_err(|e| io(dst, e))?;
                }
                tokio::fs::rename(&staging, dst).await.map_err(|e| io(dst, e))?;
                return Ok(s.done());
            }
        };
        write_file(&staging, write.path(), write.bytes()).await?;
        step = write.done();
    }
}

async fn restore(bucket: &Bucket, target: RestoreTarget, dst: &Path) -> Result<VersionRecord, Error> {
    let record = resolve(bucket, &target).await?;
    Ok(restore_record(bucket, record, dst).await?.into_record())
}

async fn prune(repl: &Replicator, bucket: &Bucket) -> Result<(), Error> {
    let layout = repl.layout();
    let window = repl.prune(&bucket.list(&layout.versions_prefix()).await?);
    let mut records = vec![];
    for seqno in &window.retained {
        records.push(decode(&bucket.get(&layout.version(*seqno)).await?));
    }
    let mut journal_keys = vec![];
    for prefix in journal_prefixes(layout, &window.expired) {
        journal_keys.extend(bucket.list(&prefix).await?);
    }
    let file_keys = bucket.list(&layout.files_prefix()).await?;
    for key in deletions(layout, &window.expired, &records, &journal_keys, &file_keys) {
        bucket.delete(&key).await?;
    }
    Ok(())
}

fn open(path: &Path) -> Database {
    Database::builder(path).open().unwrap()
}

fn data(db: &Database) -> Keyspace {
    db.keyspace("data", KeyspaceCreateOptions::default).unwrap()
}

// ---- the store ----

#[test]
fn local_object_store_conformance() {
    let dir = tempdir().unwrap();
    let store = Bucket::new(dir.path());
    block_on(async {
        // put / get round-trip, including nested keys.
        store.put("a/b/c.txt", b"hello").await.unwrap();
        assert_eq!(store.get("a/b/c.txt").await.unwrap(), b"hello");

        // exists.
        assert!(store.contains("a/b/c.txt").await.unwrap());
        assert!(!store.contains("a/b/missing").await.unwrap());

        // not found is a typed error.
        assert!(matches!(store.get("nope").await, Err(Error::NotFound(_))));

        // list is RECURSIVE and returns full flat keys under the prefix, sorted.
        store.put("p/x/1", b"1").await.unwrap();
        store.put("p/y/2", b"2").await.unwrap();
        store.put("p/3", b"3").await.unwrap();
        let keys = store.list("p").await.unwrap();
        assert_eq!(keys, vec!["p/3".to_string(), "p/x/1".to_string(), "p/y/2".to_string()]);

        // a sibling prefix must not leak in.
        store.put("pother/9", b"9").await.unwrap();
        assert_eq!(store.list("p").await.unwrap().len(), 3, "list('p') must not match 'pother/...'");

        // overwrite.
        store.put("p/3", b"33").await.unwrap();
        assert_eq!(store.get("p/3").await.unwrap(), b"33");

        // delete is idempotent; listing a missing prefix is empty.
        store.delete("p/3").await.unwrap();
        assert!(!store.contains("p/3").await.unwrap());
        store.delete("p/3").await.unwrap();
        assert!(store.list("does/not/exist").await.unwrap().is_empty());
    });
}

// ---- round trips ----

const N: u32 = 5_000;

#[test]
fn fjall_capture_replicate_restore_open() {
    let src = tempdir().unwrap();
    let bucket_dir = tempdir().unwrap();
    let dst = tempdir().unwrap();
    let bucket = Bucket::new(bucket_dir.path());

    // primary: write a real fjall database, then capture + replicate it
    {
        let db = open(src.path());
        let ks = data(&db);
        for i in 0..N {
            ks.insert(format!("key-{i:08}"), format!("value-{i:08}")).unwrap();
        }
        let mut repl = Replicator::new(layout(), ReplicateConfig::default());
        block_on(async {
            let (cap, snapshot) = capture_db(&db, src.path(), &[&ks], None).await.unwrap();
            replicate(&mut repl, &cap.version, &bucket).await.unwrap();
            drop(snapshot);
        });
    }

    // restore into a clean directory
    block_on(restore(&bucket, RestoreTarget::Latest, dst.path())).unwrap();

    // open the restored database and read every key back
    let db2 = open(dst.path());
    assert!(
        db2.keyspace_exists("data"),
        "restored db must know the 'data' keyspace (meta keyspace survived)"
    );
    let ks2 = data(&db2);
    for i in 0..N {
        let got = ks2.get(format!("key-{i:08}")).unwrap();
        assert_eq!(
            got.as_deref(),
            Some(format!("value-{i:08}").as_bytes()),
            "key {i} mismatch after restore"
        );
    }
}

#[test]
fn two_keyspaces_one_empty_roundtrip() {
    let src = tempdir().unwrap();
    let bucket_dir = tempdir().unwrap();
    let dst = tempdir().unwrap();
    let bucket = Bucket::new(bucket_dir.path());

    {
        let db = open(src.path());
        let users = db.keyspace("users", KeyspaceCreateOptions::default).unwrap();
        let empty = db.keyspace("empty", KeyspaceCreateOptions::default).unwrap();

        for i in 0..1_000u32 {
            users.insert(format!("u-{i:05}"), format!("name-{i:05}")).unwrap();
        }
        // `empty` keyspace gets created but never written: its tables/ stays empty.

        let mut repl = Replicator::new(layout(), ReplicateConfig::default());
        block_on(async {
            let (cap, _pin) = capture_db(&db, src.path(), &[&users, &empty], None).await.unwrap();
            replicate(&mut repl, &cap.version, &bucket).await.unwrap();
        });
    }

    block_on(restore(&bucket, RestoreTarget::Latest, dst.path())).unwrap();

    let db2 = open(dst.path());
    assert!(db2.keyspace_exists("users"), "users keyspace must survive");
    assert!(db2.keyspace_exists("empty"), "empty keyspace must survive");

    let users2 = db2.keyspace("users", KeyspaceCreateOptions::default).unwrap();
    for i in 0..1_000u32 {
        assert_eq!(
            users2.get(format!("u-{i:05}")).unwrap().as_deref(),
            Some(format!("name-{i:05}").as_bytes()),
            "users key {i} missing"
        );
    }

    // The empty keyspace opens and is genuinely empty.
    let empty2 = db2.keyspace("empty", KeyspaceCreateOptions::default).unwrap();
    assert_eq!(empty2.len().unwrap(), 0, "empty keyspace should have no rows");
}

/// Restore the given target into a fresh dir and return (has_A, has_B) for the two batches.
async fn restore_and_probe(bucket: &Bucket, target: RestoreTarget) -> (bool, bool) {
    let dst = tempdir().unwrap();
    restore(bucket, target, dst.path()).await.unwrap();
    let db = open(dst.path());
    let ks = data(&db);
    let has_a = ks.get("a-00000").unwrap().is_some();
    let has_b = ks.get("b-00000").unwrap().is_some();
    (has_a, has_b)
}

#[test]
fn pitr_by_seqno_and_time() {
    let src = tempdir().unwrap();
    let bucket_dir = tempdir().unwrap();
    let bucket = Bucket::new(bucket_dir.path());

    let db = open(src.path());
    let ks = data(&db);
    let mut repl = Replicator::new(layout(), ReplicateConfig::default());

    block_on(async {
        // Version A: batch a.
        for i in 0..200 {
            ks.insert(format!("a-{i:05}"), format!("av-{i:05}")).unwrap();
        }
        let (ca, pin) = capture_db(&db, src.path(), &[&ks], None).await.unwrap();
        let sa = ca.version.seqno;
        replicate(&mut repl, &ca.version, &bucket).await.unwrap();
        drop(pin);
        let ta = resolve(&bucket, &RestoreTarget::Latest).await.unwrap().ts_millis;

        // Version B: batch b (higher seqnos, later, monotonic ts).
        for i in 0..200 {
            ks.insert(format!("b-{i:05}"), format!("bv-{i:05}")).unwrap();
        }
        let (cb, pin) = capture_db(&db, src.path(), &[&ks], Some(sa)).await.unwrap();
        let sb = cb.version.seqno;
        replicate(&mut repl, &cb.version, &bucket).await.unwrap();
        drop(pin);
        let tb = resolve(&bucket, &RestoreTarget::Latest).await.unwrap().ts_millis;

        assert!(sa < sb, "seqnos must advance ({sa} !< {sb})");
        assert!(ta < tb, "timestamps must advance monotonically ({ta} !< {tb})");

        // By seqno.
        assert_eq!(restore_and_probe(&bucket, RestoreTarget::Seqno(sa)).await, (true, false), "at sA: only A");
        assert_eq!(restore_and_probe(&bucket, RestoreTarget::Seqno(sb)).await, (true, true), "at sB: A and B");
        assert_eq!(restore_and_probe(&bucket, RestoreTarget::Latest).await, (true, true), "latest: A and B");

        // By wall-clock.
        assert_eq!(restore_and_probe(&bucket, RestoreTarget::TimestampMillis(ta)).await, (true, false), "at tA: only A");
        assert_eq!(restore_and_probe(&bucket, RestoreTarget::TimestampMillis(tb)).await, (true, true), "at tB: A and B");

        // Before the first version: nothing resolves.
        let dst = tempdir().unwrap();
        let before = restore(&bucket, RestoreTarget::TimestampMillis(ta - 1), dst.path()).await;
        assert!(before.is_err(), "restoring before the first version must find nothing");
    });
}

// ---- crashes and guards ----

#[test]
fn crash_mid_upload_leaves_no_version_record() {
    let src = tempdir().unwrap();
    let bucket_dir = tempdir().unwrap();

    let db = open(src.path());
    let ks = data(&db);
    for i in 0..2_000u32 {
        ks.insert(format!("k{i:06}"), format!("v{i:06}")).unwrap();
    }

    // Fail on the 3rd put, well before the version record (written last, after all files).
    let bucket = Bucket::new(bucket_dir.path());
    bucket.puts_left.set(2);
    let mut repl = Replicator::new(layout(), ReplicateConfig::default());

    block_on(async {
        let (cap, pin) = capture_db(&db, src.path(), &[&ks], None).await.unwrap();
        let result = replicate(&mut repl, &cap.version, &bucket).await;
        assert!(result.is_err(), "the injected upload failure must surface");
        drop(pin);

        // The bucket must contain NO version record: a partial upload is invisible to readers.
        let bucket = Bucket::new(bucket_dir.path());
        let resolved = resolve(&bucket, &RestoreTarget::Latest).await;
        assert!(
            resolved.is_err(),
            "a crash before the record was written must leave no resolvable version"
        );
    });
}

/// A database with `n` rows, captured and replicated into the bucket.
fn good_backup(bucket: &Bucket, rows: impl Iterator<Item = (String, String)>) {
    let src = tempdir().unwrap();
    let db = open(src.path());
    let ks = data(&db);
    for (k, v) in rows {
        ks.insert(k, v).unwrap();
    }
    let mut repl = Replicator::new(layout(), ReplicateConfig::default());
    block_on(async {
        let (cap, _pin) = capture_db(&db, src.path(), &[&ks], None).await.unwrap();
        replicate(&mut repl, &cap.version, bucket).await.unwrap();
    });
}

#[test]
fn crash_mid_restore_leaves_target_absent() {
    let bucket_dir = tempdir().unwrap();
    let dst_parent = tempdir().unwrap();
    let dst = dst_parent.path().join("restore-target"); // deliberately does NOT exist yet

    let bucket = Bucket::new(bucket_dir.path());
    good_backup(&bucket, (0..2_000u32).map(|i| (format!("k{i:06}"), format!("v{i:06}"))));

    // Restore with a store that fails on the 2nd get (1st get is the version record; the 2nd is
    // the first file), i.e. a crash partway through downloading files.
    bucket.gets_left.set(1);
    let result = block_on(restore(&bucket, RestoreTarget::Latest, &dst));
    assert!(result.is_err(), "the injected download failure must surface");

    // The target was never renamed into place: it must not exist (no half-built db).
    assert!(!dst.exists(), "a crash mid-restore must leave the target absent, never partial");
}

#[test]
fn restore_into_nonempty_dir_errors() {
    let bucket_dir = tempdir().unwrap();
    let dst = tempdir().unwrap();
    let bucket = Bucket::new(bucket_dir.path());
    good_backup(&bucket, [("k".to_string(), "v".to_string())].into_iter());

    // Put something in the target, then attempt to restore into it.
    let err = block_on(async {
        tokio::fs::write(dst.path().join("stale-file"), b"junk").await.unwrap();
        restore(&bucket, RestoreTarget::Latest, dst.path()).await
    });
    assert!(err.is_err(), "restore into a non-empty dir must error, not clobber");
}

#[test]
fn missing_referenced_file_fails_loud() {
    let bucket_dir = tempdir().unwrap();
    let dst = tempdir().unwrap();
    let bucket = Bucket::new(bucket_dir.path());
    good_backup(&bucket, (0..500u32).map(|i| (format!("k{i:05}"), format!("v{i:05}"))));

    block_on(async {
        // Delete one referenced file from the bucket (simulating loss/incomplete upload).
        let rec = resolve(&bucket, &RestoreTarget::Latest).await.unwrap();
        let victim = rec.file_ids.first().expect("at least one file");
        bucket.delete(&layout().file(victim)).await.unwrap();

        // Restore must fail loudly, not silently produce a partial database.
        let err = restore(&bucket, RestoreTarget::Latest, dst.path()).await;
        assert!(err.is_err(), "restore with a missing referenced file must fail loudly");
    });
}

#[test]
fn corrupted_tables_are_refused_before_they_land() {
    let bucket_dir = tempdir().unwrap();
    let dst_parent = tempdir().unwrap();
    let dst = dst_parent.path().join("restore-target");
    let bucket = Bucket::new(bucket_dir.path());
    good_backup(&bucket, (0..2_000u32).map(|i| (format!("k{i:06}"), format!("v{i:06}"))));

    block_on(async {
        // Corrupt every SST table file in the bucket (overwrite with same-length garbage).
        let rec = resolve(&bucket, &RestoreTarget::Latest).await.unwrap();
        let mut corrupted = 0;
        for id in &rec.file_ids {
            if id.0.contains("/tables/") {
                let key = layout().file(id);
                let bytes = bucket.get(&key).await.unwrap();
                bucket.put(&key, &vec![0xABu8; bytes.len()]).await.unwrap();
                corrupted += 1;
            }
        }
        assert!(corrupted > 0, "expected at least one table file to corrupt");
        let result = restore(&bucket, RestoreTarget::Latest, &dst).await;
        assert!(matches!(result, Err(Error::ChecksumMismatch(path)) if path.contains("/tables/")));
        assert!(!dst.exists(), "corruption must never be silently served");
    });
}

// ---- retention and followers ----

#[test]
fn a_pruned_bucket_still_opens() {
    let src = tempdir().unwrap();
    let bucket_dir = tempdir().unwrap();
    let dst = tempdir().unwrap();
    let bucket = Bucket::new(bucket_dir.path());
    let db = open(src.path());
    let ks = data(&db);
    let cfg = ReplicateConfig {
        interval: Duration::from_secs(1),
        snapshot_every: Some(2),
        retention_versions: 2,
    };
    let mut repl = Replicator::new(layout(), cfg);
    block_on(async {
        for round in 0..4u32 {
            for i in 0..100u32 {
                ks.insert(format!("r{round}-{i:05}"), format!("v-{i:05}")).unwrap();
            }
            let (cap, pin) = capture_db(&db, src.path(), &[&ks], None).await.unwrap();
            replicate(&mut repl, &cap.version, &bucket).await.unwrap();
            drop(pin);
            prune(&repl, &bucket).await.unwrap();
        }
        assert_eq!(bucket.list(&layout().versions_prefix()).await.unwrap().len(), 2);
        restore(&bucket, RestoreTarget::Latest, dst.path()).await.unwrap();
    });
    assert_eq!(data(&open(dst.path())).len().unwrap(), 400);
}

/// One catch-up step of a follower; the database that it then serves, if it advanced.
async fn poll(follower: &mut Follower, bucket: &Bucket) -> Option<Database> {
    let newest = resolve(bucket, &RestoreTarget::Latest).await;
    let record = follower.poll_once(newest).unwrap()?;
    let dst = follower.config().local_dir.join(Follower::version_dir(record.seqno));
    let restored = restore_record(bucket, record, &dst).await.unwrap();
    let db = open(&dst);
    assert!(follower.adopt(&restored));
    Some(db)
}

#[test]
fn follower_catches_up_and_serves_reads() {
    let src = tempdir().unwrap();
    let bucket_dir = tempdir().unwrap();
    let follower_home = tempdir().unwrap();
    let bucket = Bucket::new(bucket_dir.path());

    let db = open(src.path());
    let ks = data(&db);
    let mut repl = Replicator::new(layout(), ReplicateConfig::default());

    block_on(async {
        // Version A.
        for i in 0..500u32 {
            ks.insert(format!("a-{i:05}"), format!("av-{i:05}")).unwrap();
        }
        let (ca, pin) = capture_db(&db, src.path(), &[&ks], None).await.unwrap();
        let sa = ca.version.seqno;
        replicate(&mut repl, &ca.version, &bucket).await.unwrap();
        drop(pin);

        let mut follower = Follower::new(
            layout(),
            FollowConfig {
                poll_interval: Duration::from_millis(50),
                local_dir: follower_home.path().to_path_buf(),
            },
        );

        // First catch-up: follower advances and can read batch A.
        let fdb = poll(&mut follower, &bucket).await.expect("follower should advance to version A");
        {
            let fks = data(&fdb);
            assert_eq!(fks.len().unwrap(), 500, "follower must see all of A (via iteration)");
            assert_eq!(fks.get("a-00042").unwrap().as_deref(), Some(b"av-00042".as_ref()));
        }
        assert_eq!(follower.applied_seqno(), Some(sa));

        // No new version: no advance.
        assert!(
            poll(&mut follower, &bucket).await.is_none(),
            "no new version, follower should not advance"
        );

        // Primary writes batch B and replicates.
        for i in 0..500u32 {
            ks.insert(format!("b-{i:05}"), format!("bv-{i:05}")).unwrap();
        }
        let (cb, pin) = capture_db(&db, src.path(), &[&ks], Some(sa)).await.unwrap();
        replicate(&mut repl, &cb.version, &bucket).await.unwrap();
        drop(pin);

        // Second catch-up: follower advances and now sees A+B.
        let fdb = poll(&mut follower, &bucket).await.expect("follower should advance to version B");
        let fks = data(&fdb);
        assert_eq!(fks.len().unwrap(), 1000, "follower must see A+B");
        assert_eq!(fks.get("b-00007").unwrap().as_deref(), Some(b"bv-00007".as_ref()));
    });
}
