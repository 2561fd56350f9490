//! The writer. Mirrors fjall's version history forward into the object store.
//!
//! The writer's loop is: capture a [`LocalVersion`] of the live database, replicate it with the
//! steps of [`crate::upload`], prune what has left the retention window with
//! [`crate::retention`], wait.

use vstd::prelude::*;
use vstd::string::*;
use std::path::PathBuf;
use std::time::Duration;
use crate::error::Error;
use crate::host::whole_seconds;
use crate::layout::Layout;
use crate::retention::{ascending, window, Window};
use crate::text::texts;
use crate::types::{
    contents, digests, Content, Digest, FileChecksum, FileId, PointerFile, RecordView, VersionRecord,
};
use crate::upload::{start, Outcome, OutcomeView, Progress, Step};

verus! {

/// A point-in-time view of the local database: the immutable file set at `seqno`, captured while
/// a fjall `Snapshot` is held so the files cannot be deleted before they are uploaded.
///
/// This is the seam between fjall and the replicator, which only ever sees this struct.
#[derive(Debug, Clone)]
pub struct LocalVersion {
    pub seqno: u64,
    pub parent: Option<u64>,
    /// Every immutable file the database references right now, as `(file id, path on disk)`.
    pub files: Vec<(FileId, PathBuf)>,
    /// Relative paths of every directory in the database tree.
    pub dirs: Vec<String>,
    /// The journal files, by name, captured by value.
    pub journals: Vec<(String, Vec<u8>)>,
    /// The mutable pointer files (each keyspace's `current` HEAD), captured by value.
    pub pointers: Vec<PointerFile>,
}

/// What a [`LocalVersion`] says.
#[verifier::ext_equal]
pub struct VersionView {
    pub seqno: u64,
    pub parent: Option<u64>,
    pub files: Seq<Seq<char>>,
    pub dirs: Seq<Seq<char>>,
    pub journals: Seq<Content>,
    pub pointers: Seq<Content>,
}

/// The ids of a list of local files.
pub open spec fn local_ids(v: Seq<(FileId, PathBuf)>) -> Seq<Seq<char>> {
    Seq::new(v.len(), |i: int| v[i].0.0@)
}

/// The contents of a list of named byte strings.
pub open spec fn named_contents(v: Seq<(String, Vec<u8>)>) -> Seq<Content> {
    Seq::new(v.len(), |i: int| Content { path: v[i].0@, bytes: v[i].1@ })
}

impl View for LocalVersion {
    type V = VersionView;

    open spec fn view(&self) -> VersionView {
        VersionView {
            seqno: self.seqno,
            parent: self.parent,
            files: local_ids(self.files@),
            dirs: texts(self.dirs@),
            journals: named_contents(self.journals@),
            pointers: contents(self.pointers@),
        }
    }
}

#[derive(Debug, Clone)]
pub struct ReplicateConfig {
    /// How often the writer captures and ships a new version.
    pub interval: Duration,
    /// Force a full re-base (fresh snapshot record) every this many versions, so old files can
    /// leave the bucket. `None` disables forced re-basing.
    pub snapshot_every: Option<u64>,
    /// Keep version records and their files for at least this many versions. Older ones may be
    /// pruned. A follower lagging past this window must re-bootstrap.
    pub retention_versions: u64,
}

impl Default for ReplicateConfig {
    fn default() -> (r: Self)
        ensures
            r.interval == whole_seconds(10),
            r.snapshot_every == Some(64u64),
            r.retention_versions == 256,
    {
        ReplicateConfig {
            interval: Duration::from_secs(10),
            snapshot_every: Some(64),
            retention_versions: 256,
        }
    }
}

/// What a [`Replicator`] knows.
#[verifier::ext_equal]
pub struct ReplicatorView {
    pub layout: Layout,
    pub cfg: ReplicateConfig,
    /// How many versions were recorded since the last re-base point.
    pub versions_since_snapshot: u64,
    /// How many files vanished from the local disk before they could be uploaded.
    pub files_dropped: u64,
    /// The time recorded for the last version.
    pub last_ts: Option<u64>,
    /// The content hashes that it knows of files in the store.
    pub known: Seq<Digest>,
}

impl ReplicatorView {
    /// Whether the next version is a forced re-base point.
    pub open spec fn rebases(self) -> bool {
        rebase_due(self.cfg.snapshot_every, self.versions_since_snapshot)
    }

    /// The replication of a version, at its beginning.
    pub open spec fn begun(self, version: VersionView) -> Progress {
        Progress {
            layout: self.layout,
            version,
            known: self.known,
            rebase: self.rebases(),
            last_ts: self.last_ts,
            fates: Seq::empty(),
        }
    }

    /// The replicator after a version was replicated.
    pub open spec fn finished(self, outcome: OutcomeView) -> ReplicatorView {
        ReplicatorView {
            layout: self.layout,
            cfg: self.cfg,
            versions_since_snapshot: if outcome.is_snapshot {
                0
            } else {
                capped(self.versions_since_snapshot + 1)
            },
            files_dropped: capped(self.files_dropped + outcome.dropped),
            last_ts: Some(outcome.ts_millis),
            known: self.known + outcome.fresh,
        }
    }

    /// The replicator after it took over from the writer of a version record.
    pub open spec fn resumed(self, newest: RecordView) -> ReplicatorView {
        ReplicatorView {
            last_ts: match self.last_ts {
                Some(ts) => if ts > newest.ts_millis {
                    Some(ts)
                } else {
                    Some(newest.ts_millis)
                },
                None => Some(newest.ts_millis),
            },
            known: self.known + newest.checksums,
            ..self
        }
    }
}

/// Whether the next version is a forced re-base point.
pub open spec fn rebase_due(snapshot_every: Option<u64>, versions_since_snapshot: u64) -> bool {
    snapshot_every matches Some(n) && versions_since_snapshot + 1 >= n
}

/// The sum, as far as a `u64` can count.
pub open spec fn capped(n: int) -> u64 {
    if n > u64::MAX {
        u64::MAX
    } else {
        n as u64
    }
}

/// The writer's memory between versions.
pub struct Replicator {
    layout: Layout,
    cfg: ReplicateConfig,
    versions_since_snapshot: u64,
    files_dropped: u64,
    last_ts: Option<u64>,
    known: Vec<FileChecksum>,
}

impl View for Replicator {
    type V = ReplicatorView;

    closed spec fn view(&self) -> ReplicatorView {
        ReplicatorView {
            layout: self.layout,
            cfg: self.cfg,
            versions_since_snapshot: self.versions_since_snapshot,
            files_dropped: self.files_dropped,
            last_ts: self.last_ts,
            known: digests(self.known@),
        }
    }
}

impl Replicator {
    /// A writer that has recorded nothing yet.
    pub fn new(layout: Layout, cfg: ReplicateConfig) -> (r: Self)
        ensures
            r@ == (ReplicatorView {
                layout,
                cfg,
                versions_since_snapshot: 0,
                files_dropped: 0,
                last_ts: None,
                known: Seq::empty(),
            }),
    {
        let r = Replicator {
            layout,
            cfg,
            versions_since_snapshot: 0,
            files_dropped: 0,
            last_ts: None,
            known: Vec::new(),
        };
        assert(r@.known =~= Seq::empty());
        r
    }

    /// Where this writer's objects live.
    pub fn layout(&self) -> (r: &Layout)
        ensures
            *r == self@.layout,
    {
        &self.layout
    }

    /// How this writer is set up.
    pub fn config(&self) -> (r: &ReplicateConfig)
        ensures
            *r == self@.cfg,
    {
        &self.cfg
    }

    /// How many files vanished from the local disk before they could be uploaded, and were left
    /// out of their version record.
    pub fn files_dropped(&self) -> (r: u64)
        ensures
            r == self@.files_dropped,
    {
        self.files_dropped
    }

    /// Take over from the last writer of this generation, given what the search for the newest
    /// version record found: its hashes are known again, so that the files that it names need not be
    /// fetched, and recorded times go on from its time. While no version was recorded, there is
    /// nothing to take over. Returns the seqno of the newest version.
    pub fn resume(&mut self, newest: Result<VersionRecord, Error>) -> (r: Result<
        Option<u64>,
        Error,
    >)
        ensures
            match newest {
                Ok(record) => r == Ok::<Option<u64>, Error>(Some(record.seqno)) && final(self)@
                    == old(self)@.resumed(record@),
                Err(Error::NotFound(_)) => r == Ok::<Option<u64>, Error>(None) && final(self)@
                    == old(self)@,
                Err(e) => r == Err::<Option<u64>, Error>(e) && final(self)@ == old(self)@,
            },
    {
        match newest {
            Ok(record) => {
                let ghost before = digests(self.known@);
                let seqno: u64 = record.seqno;
                let ts_millis: u64 = record.ts_millis;
                let mut checksums = record.checksums;
                let ghost added = digests(checksums@);
                self.known.append(&mut checksums);
                assert(digests(self.known@) =~= before + added);
                self.last_ts = match self.last_ts {
                    Some(ts) => if ts > ts_millis { Some(ts) } else { Some(ts_millis) },
                    None => Some(ts_millis),
                };
                Ok(Some(seqno))
            },
            Err(Error::NotFound(_)) => Ok(None),
            Err(e) => Err(e),
        }
    }

    /// Begin to replicate one captured version: upload its not-yet-present files, ship its
    /// journals, and write the version record. The steps change nothing here; the outcome of the
    /// last one does, through [`Replicator::finish`].
    pub fn replicate_once<'a>(&'a self, version: &'a LocalVersion) -> (r: Step<'a>)
        ensures
            r@ == self@.begun(version@).after_files(),
            r.gzip_is_faithful(),
    {
        let rebase: bool = match self.cfg.snapshot_every {
            Some(n) => self.versions_since_snapshot.saturating_add(1) >= n,
            None => false,
        };
        start(&self.layout, version, &self.known, rebase, self.last_ts)
    }

    /// Part the versions whose records the store lists: those in the retention window stay, the
    /// older ones are to be pruned, with what [`crate::retention::deletions`] gives.
    pub fn prune(&self, version_keys: &Vec<String>) -> (r: Window)
        ensures
            ascending(r.expired@ + r.retained@),
            forall|seqno: u64| #[trigger]
                (r.expired@ + r.retained@).contains(seqno) <==> texts(version_keys@).contains(
                    self@.layout.version_key(seqno),
                ),
            r.retained@.len() <= self@.cfg.retention_versions,
            r.expired@.len() > 0 ==> r.retained@.len() == self@.cfg.retention_versions,
    {
        window(&self.layout, version_keys, self.cfg.retention_versions)
    }

    /// Take in the outcome of a replicated version. Returns the seqno that was recorded.
    pub fn finish(&mut self, outcome: Outcome) -> (seqno: u64)
        ensures
            seqno == outcome@.seqno,
            final(self)@ == old(self)@.finished(outcome@),
    {
        let (seqno, is_snapshot, ts_millis, dropped, fresh) = outcome.into_parts();
        if is_snapshot {
            self.versions_since_snapshot = 0;
        } else {
            self.versions_since_snapshot = self.versions_since_snapshot.saturating_add(1);
        }
        self.files_dropped = self.files_dropped.saturating_add(dropped);
        self.last_ts = Some(ts_millis);
        let ghost before = digests(self.known@);
        let mut fresh: Vec<FileChecksum> = fresh;
        let ghost added = digests(fresh@);
        self.known.append(&mut fresh);
        assert(digests(self.known@) =~= before + added);
        seqno
    }
}

/// How many versions were recorded since the last re-base point, when `versions` were recorded in
/// all.
pub open spec fn count_after(snapshot_every: Option<u64>, versions: nat) -> u64
    decreases versions,
{
    if versions == 0 {
        0
    } else {
        let count = count_after(snapshot_every, (versions - 1) as nat);
        if rebase_due(snapshot_every, count) {
            0
        } else {
            capped(count + 1)
        }
    }
}

/// The replicator after these versions were replicated, one after the other.
pub open spec fn finished_all(start: ReplicatorView, outcomes: Seq<OutcomeView>) -> ReplicatorView
    decreases outcomes.len(),
{
    if outcomes.len() == 0 {
        start
    } else {
        finished_all(start, outcomes.drop_last()).finished(outcomes.last())
    }
}

/// Each outcome is that of a version that the replicator began when those before it were finished:
/// it is a re-base point if that was due then.
pub open spec fn in_turn(start: ReplicatorView, outcomes: Seq<OutcomeView>) -> bool {
    forall|k: int|
        0 <= k < outcomes.len() ==> (#[trigger] outcomes[k]).is_snapshot == finished_all(
            start,
            outcomes.take(k),
        ).rebases()
}

/// What the replicator counts is what [`count_after`] says.
proof fn lemma_counts(start: ReplicatorView, outcomes: Seq<OutcomeView>)
    requires
        start.versions_since_snapshot == 0,
        in_turn(start, outcomes),
    ensures
        finished_all(start, outcomes).cfg == start.cfg,
        finished_all(start, outcomes).versions_since_snapshot == count_after(
            start.cfg.snapshot_every,
            outcomes.len(),
        ),
    decreases outcomes.len(),
{
    if outcomes.len() > 0 {
        let before = outcomes.drop_last();
        assert forall|k: int| 0 <= k < before.len() implies (#[trigger] before[k]).is_snapshot
            == finished_all(start, before.take(k)).rebases() by {
            assert(before[k] == outcomes[k]);
            assert(before.take(k) =~= outcomes.take(k));
        }
        lemma_counts(start, before);
        assert(outcomes.take(outcomes.len() - 1) =~= before);
        assert(outcomes[outcomes.len() - 1] == outcomes.last());
    }
}

/// Re-base points come at a fixed distance: of the versions that a new replicator records, with
/// `snapshot_every` set to `n`, every `n`th is one, and no other; with zero, every version is one;
/// unset, none is.
pub proof fn law_every_nth_version_is_a_rebase_point(
    start: ReplicatorView,
    outcomes: Seq<OutcomeView>,
    k: int,
)
    requires
        start.versions_since_snapshot == 0,
        in_turn(start, outcomes),
        0 <= k < outcomes.len(),
    ensures
        outcomes[k].is_snapshot == (match start.cfg.snapshot_every {
            Some(n) => n == 0 || (k + 1) % (n as int) == 0,
            None => false,
        }),
{
    let before = outcomes.take(k);
    assert forall|l: int| 0 <= l < before.len() implies (#[trigger] before[l]).is_snapshot
        == finished_all(start, before.take(l)).rebases() by {
        assert(before[l] == outcomes[l]);
        assert(before.take(l) =~= outcomes.take(l));
    }
    lemma_counts(start, before);
    match start.cfg.snapshot_every {
        Some(n) => if n > 0 {
            lemma_count_is_remainder(n, k as nat);
        },
        None => {},
    }
}

proof fn lemma_count_is_remainder(n: u64, versions: nat)
    requires
        n > 0,
    ensures
        count_after(Some(n), versions) == versions % (n as nat),
        rebase_due(Some(n), count_after(Some(n), versions)) == ((versions + 1) % (n as nat) == 0),
    decreases versions,
{
    let m = n as int;
    let v = versions as int;
    if versions > 0 {
        lemma_count_is_remainder(n, (versions - 1) as nat);
        lemma_next_remainder(v - 1, m);
    } else {
        vstd::arithmetic::div_mod::lemma_small_mod(0, n as nat);
    }
    lemma_next_remainder(v, m);
}

/// Counting on by one moves the remainder on by one, or back to zero.
proof fn lemma_next_remainder(v: int, m: int)
    requires
        m > 0,
        v >= 0,
    ensures
        0 <= v % m < m,
        (v + 1) % m == if v % m + 1 == m {
            0
        } else {
            v % m + 1
        },
{
    vstd::arithmetic::div_mod::lemma_fundamental_div_mod(v, m);
    vstd::arithmetic::div_mod::lemma_mod_bound(v, m);
    let q = v / m;
    let r = v % m;
    if r + 1 == m {
        assert(v + 1 == (q + 1) * m + 0) by (nonlinear_arith)
            requires
                v == m * q + r,
                r + 1 == m,
        ;
        vstd::arithmetic::div_mod::lemma_fundamental_div_mod_converse(v + 1, m, q + 1, 0);
    } else {
        assert(v + 1 == q * m + (r + 1)) by (nonlinear_arith)
            requires
                v == m * q + r,
        ;
        vstd::arithmetic::div_mod::lemma_fundamental_div_mod_converse(v + 1, m, q, r + 1);
    }
}

/// A captured version is read as it is: every field, and in every list every entry in its place.
pub proof fn law_a_version_is_read_as_it_is(version: LocalVersion, i: int)
    ensures
        version@.seqno == version.seqno,
        version@.parent == version.parent,
        version@.files.len() == version.files@.len(),
        version@.dirs.len() == version.dirs@.len(),
        version@.journals.len() == version.journals@.len(),
        version@.pointers.len() == version.pointers@.len(),
        0 <= i < version.files@.len() ==> version@.files[i] == version.files@[i].0.0@,
        0 <= i < version.dirs@.len() ==> version@.dirs[i] == version.dirs@[i]@,
        0 <= i < version.journals@.len() ==> version@.journals[i].path == version.journals@[i].0@
            && version@.journals[i].bytes == version.journals@[i].1@,
        0 <= i < version.pointers@.len() ==> version@.pointers[i].path
            == version.pointers@[i].path@ && version@.pointers[i].bytes
            == version.pointers@[i].bytes@,
{
}

} // verus!
