//! The replication of one captured version, step by step.
//!
//! It is a conversation: a step says which object to look up or fetch, which local file to read,
//! or what to upload under which key; the caller does it and hands back the answer, which gives the
//! next step. Immutable files come first, then the journals, and the version record last: it is the
//! commit point, so a crash mid-upload leaves an unreferenced partial file set, never a dangling
//! record.
//!
//! The record holds the content hash of every file that it names. Most are known from the upload; a
//! file that the store has and whose hash is not known is fetched once, to be hashed.

use vstd::prelude::*;
use vstd::string::*;
use crate::checksum::{checksum_for, digest_for, fnv1a, hash64, lemma_digest_for_concat};
use crate::compress::{decodes_only_whole, gunzip_stream, gzip, gzip_stream};
use crate::lists::{copy_pointers, copy_texts};
use crate::error::Error;
use crate::layout::Layout;
use crate::replicator::{LocalVersion, VersionView};
use crate::text::texts;
use crate::types::{
    digests, id_texts, Content, Digest, FileChecksum, FileId, RecordView, VersionRecord,
};

verus! {

/// What became of one file of a version.
pub enum Fate {
    /// The store already had it, and its hash was known: nothing was read or uploaded.
    Present,
    /// The store already had it, with these bytes: they were fetched to be hashed.
    Fetched(Seq<u8>),
    /// It was gone from the local disk: it is left out of the version record.
    Vanished,
    /// These bytes were uploaded.
    Uploaded(Seq<u8>),
}

/// The replication of one version, as far as it has come: `fates` says what became of its first
/// files.
#[verifier::ext_equal]
pub struct Progress {
    pub layout: Layout,
    pub version: VersionView,
    /// The content hashes known from earlier uploads.
    pub known: Seq<Digest>,
    pub rebase: bool,
    pub last_ts: Option<u64>,
    pub fates: Seq<Fate>,
}

/// The files that did not vanish, in order.
pub open spec fn kept_ids(files: Seq<Seq<char>>, fates: Seq<Fate>) -> Seq<Seq<char>>
    decreases fates.len(),
{
    if fates.len() == 0 {
        Seq::empty()
    } else {
        let rest = kept_ids(files, fates.drop_last());
        match fates.last() {
            Fate::Vanished => rest,
            _ => rest.push(files[fates.len() - 1]),
        }
    }
}

/// The content hashes of the files that were uploaded or fetched, in order.
pub open spec fn fresh_digests(files: Seq<Seq<char>>, fates: Seq<Fate>) -> Seq<Digest>
    decreases fates.len(),
{
    if fates.len() == 0 {
        Seq::empty()
    } else {
        let rest = fresh_digests(files, fates.drop_last());
        match fates.last() {
            Fate::Uploaded(bytes) | Fate::Fetched(bytes) => rest.push(
                Digest { path: files[fates.len() - 1], hash: fnv1a(bytes) },
            ),
            _ => rest,
        }
    }
}

/// The digests that are known for these paths, in the order of the paths.
pub open spec fn known_digests(list: Seq<Digest>, paths: Seq<Seq<char>>) -> Seq<Digest>
    decreases paths.len(),
{
    if paths.len() == 0 {
        Seq::empty()
    } else {
        let rest = known_digests(list, paths.drop_last());
        match digest_for(list, paths.last()) {
            Some(hash) => rest.push(Digest { path: paths.last(), hash }),
            None => rest,
        }
    }
}

/// No more files are kept than were settled.
proof fn lemma_kept_len(files: Seq<Seq<char>>, fates: Seq<Fate>)
    ensures
        kept_ids(files, fates).len() <= fates.len(),
    decreases fates.len(),
{
    if fates.len() > 0 {
        lemma_kept_len(files, fates.drop_last());
    }
}

/// The digests of these contents.
pub open spec fn content_digests(list: Seq<Content>) -> Seq<Digest> {
    Seq::new(list.len(), |i: int| Digest { path: list[i].path, hash: fnv1a(list[i].bytes) })
}

/// The paths of these contents.
pub open spec fn content_paths(list: Seq<Content>) -> Seq<Seq<char>> {
    Seq::new(list.len(), |i: int| list[i].path)
}

/// The time to record for a version: the clock, unless it has not advanced past the last recorded
/// time; then the next millisecond.
pub open spec fn advanced_ts(last: Option<u64>, now: u64) -> u64 {
    match last {
        Some(ts) => if now > ts {
            now
        } else if ts < u64::MAX {
            (ts + 1) as u64
        } else {
            ts
        },
        None => now,
    }
}

impl Progress {
    pub open spec fn with(self, fate: Fate) -> Progress {
        Progress { fates: self.fates.push(fate), ..self }
    }

    /// All content hashes known by now.
    pub open spec fn digests(self) -> Seq<Digest> {
        self.known + fresh_digests(self.version.files, self.fates)
    }

    /// The version record to commit when the clock shows `now`.
    pub open spec fn record(self, now: u64) -> RecordView {
        let file_ids = kept_ids(self.version.files, self.fates);
        RecordView {
            seqno: self.version.seqno,
            parent: self.version.parent,
            file_ids,
            dirs: self.version.dirs,
            journals: content_paths(self.version.journals),
            pointers: self.version.pointers,
            checksums: known_digests(self.digests(), file_ids),
            journal_checksums: content_digests(self.version.journals),
            is_snapshot: self.rebase,
            ts_millis: advanced_ts(self.last_ts, now),
        }
    }

    /// What comes when the fate of the first `fates.len()` files is settled: the next file, or
    /// the journals.
    pub open spec fn after_files(self) -> StepView {
        if self.fates.len() < self.version.files.len() {
            StepView::Probe(self)
        } else {
            self.after_journals(0)
        }
    }

    /// What comes when the first `at` journals are uploaded: the next journal, or the clock.
    pub open spec fn after_journals(self, at: int) -> StepView {
        if at < self.version.journals.len() {
            match gzip_stream(self.version.journals[at].bytes) {
                Some(object) => StepView::PutJournal(self, at, object),
                None => StepView::Failed,
            }
        } else {
            StepView::Clock(self)
        }
    }

    /// Whether the hash of the file whose fate is open is known.
    pub open spec fn current_is_known(self) -> bool {
        digest_for(self.digests(), self.current_id()) is Some
    }

    /// What comes when the store has the file whose fate is open.
    pub open spec fn after_found(self) -> StepView {
        if self.current_is_known() {
            self.with(Fate::Present).after_files()
        } else {
            StepView::Fetch(self)
        }
    }

    /// The id of the file whose fate is open.
    pub open spec fn current_id(self) -> Seq<char> {
        self.version.files[self.fates.len() as int]
    }

    /// The key of the file whose fate is open.
    pub open spec fn current_key(self) -> Seq<char> {
        self.layout.file_key(self.current_id())
    }

    /// The key of the journal with this index.
    pub open spec fn journal_key_at(self, at: int) -> Seq<char> {
        self.layout.journal_key(self.version.seqno, self.version.journals[at].path)
    }

    /// What comes when it is known whether the store has the file whose fate is open.
    pub open spec fn probed(self, present: bool) -> StepView {
        if present {
            self.after_found()
        } else {
            StepView::Read(self)
        }
    }

    /// What comes when that file was fetched from the store.
    pub open spec fn fetched(self, object: Seq<u8>) -> StepView {
        self.with(Fate::Fetched(object)).after_files()
    }

    /// What comes when that file was read from the disk, or was gone.
    pub open spec fn read(self, bytes: Option<Seq<u8>>) -> StepView {
        match bytes {
            Some(bytes) => StepView::PutFile(self, bytes),
            None => self.with(Fate::Vanished).after_files(),
        }
    }

    /// What comes when that file is uploaded.
    pub open spec fn put(self, bytes: Seq<u8>) -> StepView {
        self.with(Fate::Uploaded(bytes)).after_files()
    }

    /// What comes when the clock was read.
    pub open spec fn clocked(self, now: u64) -> StepView {
        StepView::PutRecord(self, self.record(now))
    }

    /// What comes when the record is written.
    pub open spec fn committed(self, record: RecordView) -> StepView {
        if record.is_snapshot {
            StepView::PutSnapshot(self, record)
        } else {
            self.copied(record)
        }
    }

    /// What comes when the copy of the record is written.
    pub open spec fn copied(self, record: RecordView) -> StepView {
        StepView::Done(self.outcome(record))
    }

    /// What is learned when everything is uploaded.
    pub open spec fn outcome(self, record: RecordView) -> OutcomeView {
        OutcomeView {
            seqno: self.version.seqno,
            is_snapshot: record.is_snapshot,
            ts_millis: record.ts_millis,
            dropped: self.fates.len() - record.file_ids.len(),
            fresh: fresh_digests(self.version.files, self.fates),
        }
    }
}

/// What a finished replication changes in the replicator.
#[verifier::ext_equal]
pub struct OutcomeView {
    pub seqno: u64,
    pub is_snapshot: bool,
    pub ts_millis: u64,
    pub dropped: int,
    pub fresh: Seq<Digest>,
}

/// What a [`Step`] asks for.
pub enum StepView {
    Probe(Progress),
    Fetch(Progress),
    Read(Progress),
    PutFile(Progress, Seq<u8>),
    PutJournal(Progress, int, Seq<u8>),
    Clock(Progress),
    PutRecord(Progress, RecordView),
    PutSnapshot(Progress, RecordView),
    Done(OutcomeView),
    Failed,
}

/// The replication of one version, as far as it has come.
struct Job<'a> {
    layout: &'a Layout,
    version: &'a LocalVersion,
    known: &'a Vec<FileChecksum>,
    rebase: bool,
    last_ts: Option<u64>,
    /// How many files are settled.
    at: usize,
    /// The settled files that did not vanish.
    kept: Vec<FileId>,
    /// The checksums of the files that were uploaded or fetched.
    fresh: Vec<FileChecksum>,
    fates: Ghost<Seq<Fate>>,
}

impl<'a> Job<'a> {
    spec fn well_formed(self) -> bool {
        &&& self.at == self.fates@.len()
        &&& self.at <= self.version.files@.len()
        &&& id_texts(self.kept@) == kept_ids(self.version@.files, self.fates@)
        &&& digests(self.fresh@) == fresh_digests(self.version@.files, self.fates@)
    }

    spec fn progress(self) -> Progress {
        Progress {
            layout: *self.layout,
            version: self.version@,
            known: digests(self.known@),
            rebase: self.rebase,
            last_ts: self.last_ts,
            fates: self.fates@,
        }
    }

    /// The next file, or the journals.
    fn after_files(self) -> (r: Step<'a>)
        requires
            self.well_formed(),
        ensures
            r@ == self.progress().after_files(),
            r.gzip_is_faithful(),
    {
        if self.at < self.version.files.len() {
            Step::Probe(ProbeFile { job: self })
        } else {
            self.after_journals(0)
        }
    }

    /// The next journal, or the clock.
    fn after_journals(self, at: usize) -> (r: Step<'a>)
        requires
            self.well_formed(),
            self.at == self.version.files@.len(),
            at <= self.version.journals@.len(),
        ensures
            r@ == self.progress().after_journals(at as int),
            r.gzip_is_faithful(),
    {
        if at < self.version.journals.len() {
            match gzip(self.version.journals[at].1.as_slice()) {
                Ok(object) => Step::PutJournal(PutJournal { job: self, at, object }),
                Err(e) => Step::Failed(e),
            }
        } else {
            Step::Clock(ReadClock { job: self })
        }
    }

    /// The store already has the current file.
    fn present(self) -> (r: Job<'a>)
        requires
            self.well_formed(),
            self.at < self.version.files@.len(),
        ensures
            r.well_formed(),
            r.progress() == self.progress().with(Fate::Present),
    {
        let mut kept: Vec<FileId> = self.kept;
        kept.push(FileId(self.version.files[self.at].0.0.clone()));
        assert(self.at < self.version.files.len());
        let ghost fates = self.fates@.push(Fate::Present);
        proof {
            assert(fates.drop_last() =~= self.fates@);
            assert(id_texts(kept@) =~= id_texts(self.kept@).push(self.progress().current_id()));
        }
        Job { kept, at: self.at + 1, fates: Ghost(fates), ..self }
    }

    /// The current file is gone from the local disk.
    fn vanished(self) -> (r: Job<'a>)
        requires
            self.well_formed(),
            self.at < self.version.files@.len(),
        ensures
            r.well_formed(),
            r.progress() == self.progress().with(Fate::Vanished),
    {
        assert(self.at < self.version.files.len());
        let ghost fates = self.fates@.push(Fate::Vanished);
        proof {
            assert(fates.drop_last() =~= self.fates@);
        }
        Job { at: self.at + 1, fates: Ghost(fates), ..self }
    }

    /// The current file is in the store, with these bytes.
    fn hashed(self, bytes: &Vec<u8>, fate: Ghost<Fate>) -> (r: Job<'a>)
        requires
            self.well_formed(),
            self.at < self.version.files@.len(),
            fate@ == Fate::Uploaded(bytes@) || fate@ == Fate::Fetched(bytes@),
        ensures
            r.well_formed(),
            r.progress() == self.progress().with(fate@),
    {
        let mut kept: Vec<FileId> = self.kept;
        let mut fresh: Vec<FileChecksum> = self.fresh;
        kept.push(FileId(self.version.files[self.at].0.0.clone()));
        fresh.push(
            FileChecksum {
                path: self.version.files[self.at].0.0.clone(),
                hash: hash64(bytes.as_slice()),
            },
        );
        assert(self.at < self.version.files.len());
        let ghost fates = self.fates@.push(fate@);
        proof {
            let id = self.progress().current_id();
            assert(fates.drop_last() =~= self.fates@);
            assert(id_texts(kept@) =~= id_texts(self.kept@).push(id));
            assert(digests(fresh@) =~= digests(self.fresh@).push(
                Digest { path: id, hash: fnv1a(bytes@) },
            ));
        }
        Job { kept, fresh, at: self.at + 1, fates: Ghost(fates), ..self }
    }

    /// The hash that is known for a path by now.
    fn known_hash(&self, path: &str) -> (r: Option<u64>)
        requires
            self.well_formed(),
        ensures
            r == digest_for(self.progress().digests(), path@),
    {
        proof {
            lemma_digest_for_concat(digests(self.known@), digests(self.fresh@), path@);
        }
        match checksum_for(&self.fresh, path) {
            Some(hash) => Some(hash),
            None => checksum_for(self.known, path),
        }
    }

    /// The checksums to record: those known for the kept files.
    fn checksums(&self) -> (r: Vec<FileChecksum>)
        requires
            self.well_formed(),
        ensures
            digests(r@) == known_digests(
                self.progress().digests(),
                kept_ids(self.version@.files, self.fates@),
            ),
    {
        let ghost list = self.progress().digests();
        let ghost paths = id_texts(self.kept@);
        let mut out: Vec<FileChecksum> = Vec::new();
        let mut i: usize = 0;
        assert(digests(out@) =~= Seq::empty());
        while i < self.kept.len()
            invariant
                self.well_formed(),
                i <= self.kept.len(),
                list == self.progress().digests(),
                paths == id_texts(self.kept@),
                digests(out@) == known_digests(list, paths.take(i as int)),
            decreases self.kept.len() - i,
        {
            let ghost before = digests(out@);
            let path = self.kept[i].0.as_str();
            let hash: Option<u64> = self.known_hash(path);
            proof {
                assert(paths.take(i + 1).drop_last() =~= paths.take(i as int));
                assert(paths.take(i + 1).last() == path@);
            }
            match hash {
                Some(hash) => {
                    out.push(FileChecksum { path: self.kept[i].0.clone(), hash });
                    assert(digests(out@) =~= before.push(Digest { path: path@, hash }));
                },
                None => {},
            }
            i += 1;
        }
        assert(paths.take(i as int) =~= paths);
        out
    }

    /// The checksums of the journals.
    fn journal_checksums(&self) -> (r: Vec<FileChecksum>)
        ensures
            digests(r@) == content_digests(self.version@.journals),
    {
        let ghost journals = content_digests(self.version@.journals);
        let mut out: Vec<FileChecksum> = Vec::new();
        let mut j: usize = 0;
        assert(digests(out@) =~= journals.take(0));
        while j < self.version.journals.len()
            invariant
                j <= self.version.journals.len(),
                journals == content_digests(self.version@.journals),
                digests(out@) == journals.take(j as int),
            decreases self.version.journals.len() - j,
        {
            let ghost before = digests(out@);
            let journal = &self.version.journals[j];
            out.push(FileChecksum { path: journal.0.clone(), hash: hash64(journal.1.as_slice()) });
            assert(digests(out@) =~= before.push(journals[j as int]));
            assert(before.push(journals[j as int]) =~= journals.take(j + 1));
            j += 1;
        }
        assert(journals.take(j as int) =~= journals);
        out
    }

    fn journal_names(&self) -> (r: Vec<String>)
        ensures
            texts(r@) == content_paths(self.version@.journals),
    {
        let ghost all = content_paths(self.version@.journals);
        let mut out: Vec<String> = Vec::new();
        let mut i: usize = 0;
        assert(texts(out@) =~= all.take(0));
        while i < self.version.journals.len()
            invariant
                i <= self.version.journals.len(),
                all == content_paths(self.version@.journals),
                texts(out@) == all.take(i as int),
            decreases self.version.journals.len() - i,
        {
            let ghost before = texts(out@);
            out.push(self.version.journals[i].0.clone());
            assert(texts(out@) =~= before.push(all[i as int]));
            assert(before.push(all[i as int]) =~= all.take(i + 1));
            i += 1;
        }
        assert(all.take(i as int) =~= all);
        out
    }
}

/// Begin to replicate `version`. `known` are the checksums known from earlier, `rebase` says
/// whether this is a forced re-base point, `last_ts` is the time recorded for the version before.
pub fn start<'a>(
    layout: &'a Layout,
    version: &'a LocalVersion,
    known: &'a Vec<FileChecksum>,
    rebase: bool,
    last_ts: Option<u64>,
) -> (r: Step<'a>)
    ensures
        r@ == (Progress {
            layout: *layout,
            version: version@,
            known: digests(known@),
            rebase,
            last_ts,
            fates: Seq::empty(),
        }).after_files(),
        r.gzip_is_faithful(),
{
    let job = Job {
        layout,
        version,
        known,
        rebase,
        last_ts,
        at: 0,
        kept: Vec::new(),
        fresh: Vec::new(),
        fates: Ghost(Seq::empty()),
    };
    assert(id_texts(job.kept@) =~= Seq::empty());
    assert(digests(job.fresh@) =~= Seq::empty());
    job.after_files()
}

/// What to do next.
pub enum Step<'a> {
    /// Look up whether the store holds an object.
    Probe(ProbeFile<'a>),
    /// Fetch an object.
    Fetch(FetchFile<'a>),
    /// Read a local file.
    Read(ReadFile<'a>),
    /// Upload the bytes of a file.
    PutFile(PutFile<'a>),
    /// Upload a compressed journal.
    PutJournal(PutJournal<'a>),
    /// Read the clock.
    Clock(ReadClock<'a>),
    /// Write the version record: the commit point.
    PutRecord(PutRecord<'a>),
    /// Write the copy of the version record that marks a re-base point.
    PutSnapshot(PutSnapshot<'a>),
    /// Everything is in the store.
    Done(Outcome),
    /// A journal could not be compressed.
    Failed(Error),
}

impl<'a> View for Step<'a> {
    type V = StepView;

    open spec fn view(&self) -> StepView {
        match *self {
            Step::Probe(s) => StepView::Probe(s.progress()),
            Step::Fetch(s) => StepView::Fetch(s.progress()),
            Step::Read(s) => StepView::Read(s.progress()),
            Step::PutFile(s) => StepView::PutFile(s.progress(), s.object()),
            Step::PutJournal(s) => StepView::PutJournal(s.progress(), s.index(), s.object()),
            Step::Clock(s) => StepView::Clock(s.progress()),
            Step::PutRecord(s) => StepView::PutRecord(s.progress(), s.content()),
            Step::PutSnapshot(s) => StepView::PutSnapshot(s.progress(), s.content()),
            Step::Done(o) => StepView::Done(o@),
            Step::Failed(_) => StepView::Failed,
        }
    }
}

impl<'a> Step<'a> {
    /// The only failure is that of the compression, and a compressed journal decodes to the
    /// journal again, and only as a whole.
    pub open spec fn gzip_is_faithful(self) -> bool {
        &&& self matches Step::Failed(e) ==> e matches Error::Io { path, .. } && path@ == "<gzip>"@
        &&& self matches Step::PutJournal(s) ==> gunzip_stream(s.object()) == Some(
            s.progress().version.journals[s.index()].bytes,
        ) && decodes_only_whole(s.object())
    }
}

/// The question whether the store already has a file.
pub struct ProbeFile<'a> {
    job: Job<'a>,
}

impl<'a> ProbeFile<'a> {
    #[verifier::type_invariant]
    spec fn valid(self) -> bool {
        self.job.well_formed() && self.job.at < self.job.version.files@.len()
    }

    pub closed spec fn progress(self) -> Progress {
        self.job.progress()
    }

    /// The key to look up.
    pub fn key(&self) -> (r: String)
        ensures
            r@ == self.progress().current_key(),
    {
        proof {
            use_type_invariant(self);
        }
        self.job.layout.file(&self.job.version.files[self.job.at].0)
    }

    /// The answer. A file that the store has is not uploaded again; it is fetched only where its
    /// hash is not known.
    pub fn answer(self, present: bool) -> (r: Step<'a>)
        ensures
            r@ == self.progress().probed(present),
            r.gzip_is_faithful(),
    {
        proof {
            use_type_invariant(&self);
        }
        if !present {
            Step::Read(ReadFile { job: self.job })
        } else if self.job.known_hash(self.job.version.files[self.job.at].0.0.as_str()).is_some() {
            self.job.present().after_files()
        } else {
            Step::Fetch(FetchFile { job: self.job })
        }
    }
}

/// The request to fetch a file that the store has, to be hashed.
pub struct FetchFile<'a> {
    job: Job<'a>,
}

impl<'a> FetchFile<'a> {
    #[verifier::type_invariant]
    spec fn valid(self) -> bool {
        self.job.well_formed() && self.job.at < self.job.version.files@.len()
    }

    pub closed spec fn progress(self) -> Progress {
        self.job.progress()
    }

    /// The key to fetch.
    pub fn key(&self) -> (r: String)
        ensures
            r@ == self.progress().current_key(),
    {
        proof {
            use_type_invariant(self);
        }
        self.job.layout.file(&self.job.version.files[self.job.at].0)
    }

    /// What the store holds.
    pub fn answer(self, object: &Vec<u8>) -> (r: Step<'a>)
        ensures
            r@ == self.progress().fetched(object@),
            r.gzip_is_faithful(),
    {
        proof {
            use_type_invariant(&self);
        }
        self.job.hashed(object, Ghost(Fate::Fetched(object@))).after_files()
    }
}

/// The request to read a local file.
pub struct ReadFile<'a> {
    job: Job<'a>,
}

impl<'a> ReadFile<'a> {
    #[verifier::type_invariant]
    spec fn valid(self) -> bool {
        self.job.well_formed() && self.job.at < self.job.version.files@.len()
    }

    pub closed spec fn progress(self) -> Progress {
        self.job.progress()
    }

    /// Which of the version's files to read.
    pub fn index(&self) -> (r: usize)
        ensures
            r == self.progress().fates.len(),
            r < self.progress().version.files.len(),
    {
        proof {
            use_type_invariant(self);
        }
        self.job.at
    }

    /// The bytes of the file, or `None` if it is gone: an obsolete file may be deleted after the
    /// capture. It is left out and counted.
    pub fn answer(self, bytes: Option<Vec<u8>>) -> (r: Step<'a>)
        ensures
            r@ == match bytes {
                Some(b) => self.progress().read(Some(b@)),
                None => self.progress().read(None),
            },
            r.gzip_is_faithful(),
    {
        proof {
            use_type_invariant(&self);
        }
        match bytes {
            Some(bytes) => Step::PutFile(PutFile { job: self.job, bytes }),
            None => self.job.vanished().after_files(),
        }
    }
}

/// The request to upload a file.
pub struct PutFile<'a> {
    job: Job<'a>,
    bytes: Vec<u8>,
}

impl<'a> PutFile<'a> {
    #[verifier::type_invariant]
    spec fn valid(self) -> bool {
        self.job.well_formed() && self.job.at < self.job.version.files@.len()
    }

    pub closed spec fn progress(self) -> Progress {
        self.job.progress()
    }

    pub closed spec fn object(self) -> Seq<u8> {
        self.bytes@
    }

    /// The key to upload under.
    pub fn key(&self) -> (r: String)
        ensures
            r@ == self.progress().current_key(),
    {
        proof {
            use_type_invariant(self);
        }
        self.job.layout.file(&self.job.version.files[self.job.at].0)
    }

    /// What to upload.
    pub fn bytes(&self) -> (r: &Vec<u8>)
        ensures
            r@ == self.object(),
    {
        &self.bytes
    }

    /// The upload is durable.
    pub fn done(self) -> (r: Step<'a>)
        ensures
            r@ == self.progress().put(self.object()),
            r.gzip_is_faithful(),
    {
        proof {
            use_type_invariant(&self);
        }
        self.job.hashed(&self.bytes, Ghost(Fate::Uploaded(self.bytes@))).after_files()
    }
}

/// The request to upload a compressed journal.
pub struct PutJournal<'a> {
    job: Job<'a>,
    at: usize,
    object: Vec<u8>,
}

impl<'a> PutJournal<'a> {
    #[verifier::type_invariant]
    spec fn valid(self) -> bool {
        &&& self.job.well_formed()
        &&& self.job.at == self.job.version.files@.len()
        &&& self.at < self.job.version.journals@.len()
    }

    pub closed spec fn progress(self) -> Progress {
        self.job.progress()
    }

    pub closed spec fn index(self) -> int {
        self.at as int
    }

    pub closed spec fn object(self) -> Seq<u8> {
        self.object@
    }

    /// The key to upload under.
    pub fn key(&self) -> (r: String)
        ensures
            r@ == self.progress().journal_key_at(self.index()),
    {
        proof {
            use_type_invariant(self);
        }
        self.job.layout.journal(
            self.job.version.seqno,
            self.job.version.journals[self.at].0.as_str(),
        )
    }

    /// What to upload.
    pub fn bytes(&self) -> (r: &Vec<u8>)
        ensures
            r@ == self.object(),
    {
        &self.object
    }

    /// The upload is durable.
    pub fn done(self) -> (r: Step<'a>)
        ensures
            r@ == self.progress().after_journals(self.index() + 1),
            r.gzip_is_faithful(),
    {
        proof {
            use_type_invariant(&self);
        }
        assert(self.at < self.job.version.journals.len());
        self.job.after_journals(self.at + 1)
    }
}

/// The request to read the clock.
pub struct ReadClock<'a> {
    job: Job<'a>,
}

impl<'a> ReadClock<'a> {
    #[verifier::type_invariant]
    spec fn valid(self) -> bool {
        self.job.well_formed() && self.job.at == self.job.version.files@.len()
    }

    pub closed spec fn progress(self) -> Progress {
        self.job.progress()
    }

    /// The time, in milliseconds since the Unix epoch. The recorded times advance even where the
    /// clock does not.
    pub fn answer(self, now_millis: u64) -> (r: Step<'a>)
        ensures
            r@ == self.progress().clocked(now_millis),
    {
        proof {
            use_type_invariant(&self);
        }
        let checksums = self.job.checksums();
        let ts_millis: u64 = match self.job.last_ts {
            Some(ts) => if now_millis > ts { now_millis } else { ts.saturating_add(1) },
            None => now_millis,
        };
        let mut job = self.job;
        let ghost progress = job.progress();
        let mut file_ids: Vec<FileId> = Vec::new();
        std::mem::swap(&mut file_ids, &mut job.kept);
        let record = VersionRecord {
            seqno: job.version.seqno,
            parent: job.version.parent,
            file_ids,
            dirs: copy_texts(&job.version.dirs),
            journals: job.journal_names(),
            pointers: copy_pointers(&job.version.pointers),
            checksums,
            journal_checksums: job.journal_checksums(),
            is_snapshot: job.rebase,
            ts_millis,
        };
        assert(record@ =~= progress.record(now_millis));
        proof {
            lemma_kept_len(progress.version.files, progress.fates);
            assert(id_texts(record.file_ids@).len() == record.file_ids.len());
        }
        let dropped: u64 = (job.at - record.file_ids.len()) as u64;
        Step::PutRecord(
            PutRecord { layout: job.layout, fresh: job.fresh, dropped, record, from: Ghost(progress) },
        )
    }
}

/// The request to write the version record.
pub struct PutRecord<'a> {
    layout: &'a Layout,
    fresh: Vec<FileChecksum>,
    dropped: u64,
    record: VersionRecord,
    from: Ghost<Progress>,
}

/// What the last two steps keep in step.
spec fn committing(
    layout: Layout,
    fresh: Seq<FileChecksum>,
    dropped: u64,
    record: RecordView,
    from: Progress,
) -> bool {
    &&& layout == from.layout
    &&& record.seqno == from.version.seqno
    &&& digests(fresh) == fresh_digests(from.version.files, from.fates)
    &&& dropped == from.fates.len() - record.file_ids.len()
}

impl<'a> PutRecord<'a> {
    #[verifier::type_invariant]
    spec fn valid(self) -> bool {
        committing(*self.layout, self.fresh@, self.dropped, self.record@, self.from@)
    }

    pub closed spec fn progress(self) -> Progress {
        self.from@
    }

    pub closed spec fn content(self) -> RecordView {
        self.record@
    }

    /// The key to write under.
    pub fn key(&self) -> (r: String)
        ensures
            r@ == self.progress().layout.version_key(self.content().seqno),
    {
        proof {
            use_type_invariant(self);
        }
        self.layout.version(self.record.seqno)
    }

    /// What to write.
    pub fn record(&self) -> (r: &VersionRecord)
        ensures
            r@ == self.content(),
    {
        &self.record
    }

    /// The record is durable.
    pub fn done(self) -> (r: Step<'a>)
        ensures
            r@ == self.progress().committed(self.content()),
    {
        proof {
            use_type_invariant(&self);
        }
        if self.record.is_snapshot {
            Step::PutSnapshot(
                PutSnapshot {
                    layout: self.layout,
                    fresh: self.fresh,
                    dropped: self.dropped,
                    record: self.record,
                    from: self.from,
                },
            )
        } else {
            Step::Done(
                Outcome {
                    seqno: self.record.seqno,
                    is_snapshot: self.record.is_snapshot,
                    ts_millis: self.record.ts_millis,
                    dropped: self.dropped,
                    fresh: self.fresh,
                },
            )
        }
    }
}

/// The request to write the copy of the version record that marks a re-base point.
pub struct PutSnapshot<'a> {
    layout: &'a Layout,
    fresh: Vec<FileChecksum>,
    dropped: u64,
    record: VersionRecord,
    from: Ghost<Progress>,
}

impl<'a> PutSnapshot<'a> {
    #[verifier::type_invariant]
    spec fn valid(self) -> bool {
        committing(*self.layout, self.fresh@, self.dropped, self.record@, self.from@)
    }

    pub closed spec fn progress(self) -> Progress {
        self.from@
    }

    pub closed spec fn content(self) -> RecordView {
        self.record@
    }

    /// The key to write under.
    pub fn key(&self) -> (r: String)
        ensures
            r@ == self.progress().layout.snapshot_key(self.content().seqno),
    {
        proof {
            use_type_invariant(self);
        }
        self.layout.snapshot(self.record.seqno)
    }

    /// What to write.
    pub fn record(&self) -> (r: &VersionRecord)
        ensures
            r@ == self.content(),
    {
        &self.record
    }

    /// The copy is durable.
    pub fn done(self) -> (r: Step<'a>)
        ensures
            r@ == self.progress().copied(self.content()),
    {
        proof {
            use_type_invariant(&self);
        }
        Step::Done(
            Outcome {
                seqno: self.record.seqno,
                is_snapshot: self.record.is_snapshot,
                ts_millis: self.record.ts_millis,
                dropped: self.dropped,
                fresh: self.fresh,
            },
        )
    }
}

/// What was learned from a replicated version.
pub struct Outcome {
    seqno: u64,
    is_snapshot: bool,
    ts_millis: u64,
    dropped: u64,
    fresh: Vec<FileChecksum>,
}

impl View for Outcome {
    type V = OutcomeView;

    closed spec fn view(&self) -> OutcomeView {
        OutcomeView {
            seqno: self.seqno,
            is_snapshot: self.is_snapshot,
            ts_millis: self.ts_millis,
            dropped: self.dropped as int,
            fresh: digests(self.fresh@),
        }
    }
}

impl Outcome {
    /// The recorded seqno, whether the record is a re-base point, its time, how many files were
    /// dropped, and the checksums of the files that were uploaded or fetched.
    pub fn into_parts(self) -> (r: (u64, bool, u64, u64, Vec<FileChecksum>))
        ensures
            self@ == (OutcomeView {
                seqno: r.0,
                is_snapshot: r.1,
                ts_millis: r.2,
                dropped: r.3 as int,
                fresh: digests(r.4@),
            }),
    {
        (self.seqno, self.is_snapshot, self.ts_millis, self.dropped, self.fresh)
    }
}

} // verus!
