//! What the replicated history is made of.

use vstd::prelude::*;
use vstd::string::*;
use crate::text::texts;

verus! {

/// A lineage id. A fresh generation is started whenever a database is restored and then
/// diverges, so two histories can never be confused in the same bucket.
#[derive(Debug, Clone, PartialEq, Eq, Hash)]
pub struct Generation(pub String);

impl Generation {
    /// The id as text.
    pub fn to_string(&self) -> (r: String)
        ensures
            r@ == self.0@,
    {
        self.0.clone()
    }
}

/// Identifier of an immutable file (SST or blob) in the content-addressed store.
///
/// fjall's files are immutable once written, so a file id maps to exactly one byte sequence
/// forever. The bucket's `files/` store is keyed by it and each file is uploaded at most once.
#[derive(Debug, Clone, PartialEq, Eq, Hash, PartialOrd, Ord)]
pub struct FileId(pub String);

impl FileId {
    /// The id as text.
    pub fn to_string(&self) -> (r: String)
        ensures
            r@ == self.0@,
    {
        self.0.clone()
    }
}

/// The character sequences of a list of file ids.
pub open spec fn id_texts(v: Seq<FileId>) -> Seq<Seq<char>> {
    Seq::new(v.len(), |i: int| v[i].0@)
}

/// A mutable file captured by value inside a [`VersionRecord`]. `path` is relative to the
/// database root (e.g. `keyspaces/1/current`).
#[derive(Debug, Clone)]
pub struct PointerFile {
    pub path: String,
    pub bytes: Vec<u8>,
}

/// A path with the bytes that belong there.
#[verifier::ext_equal]
pub struct Content {
    pub path: Seq<char>,
    pub bytes: Seq<u8>,
}

impl View for PointerFile {
    type V = Content;

    open spec fn view(&self) -> Content {
        Content { path: self.path@, bytes: self.bytes@ }
    }
}

/// The contents of a list of pointer files.
pub open spec fn contents(v: Seq<PointerFile>) -> Seq<Content> {
    Seq::new(v.len(), |i: int| v[i]@)
}

/// The content hash of one uploaded file or journal.
#[derive(Debug, Clone)]
pub struct FileChecksum {
    /// The path of the file, relative to the database root.
    pub path: String,
    /// What [`crate::checksum::hash64`] gives for the file's bytes.
    pub hash: u64,
}

/// A path with a content hash.
#[verifier::ext_equal]
pub struct Digest {
    pub path: Seq<char>,
    pub hash: u64,
}

impl View for FileChecksum {
    type V = Digest;

    open spec fn view(&self) -> Digest {
        Digest { path: self.path@, hash: self.hash }
    }
}

/// The digests of a list of checksums.
pub open spec fn digests(v: Seq<FileChecksum>) -> Seq<Digest> {
    Seq::new(v.len(), |i: int| v[i]@)
}

/// One point in the replicated version history.
///
/// The exact set of immutable files that make up the database at sequence number `seqno`, plus
/// the bytes of the few *mutable* pointer files (fjall's per-keyspace `current` HEAD) captured
/// inline: those cannot be content-addressed because they are rewritten in place.
#[derive(Debug, Clone)]
pub struct VersionRecord {
    /// Monotonic sequence-number watermark this version is flushed up to.
    pub seqno: u64,
    /// The version this one descends from, if any. `None` for the first record in a generation.
    pub parent: Option<u64>,
    /// Every immutable file the database references at this version (keyed by relative path).
    pub file_ids: Vec<FileId>,
    /// Relative paths of every directory in the database tree, so restore can recreate empty
    /// ones.
    pub dirs: Vec<String>,
    /// The names of the journal files shipped with this version.
    pub journals: Vec<String>,
    /// The mutable pointer files (e.g. each keyspace's `current` HEAD), captured inline.
    pub pointers: Vec<PointerFile>,
    /// Content hashes of the uploaded files, checked before a restore lands them.
    pub checksums: Vec<FileChecksum>,
    /// Content hashes of the journals before compression, checked before a restore lands them.
    pub journal_checksums: Vec<FileChecksum>,
    /// True if this record is a full re-base point (a fresh snapshot) rather than an incremental
    /// version.
    pub is_snapshot: bool,
    /// Wall-clock time the version was recorded, milliseconds since the Unix epoch; where the clock
    /// has not advanced past the time recorded for the version before, the millisecond after that
    /// time. Used only for human-facing point-in-time restore targets, never for ordering.
    pub ts_millis: u64,
}

/// What a [`VersionRecord`] says.
#[verifier::ext_equal]
pub struct RecordView {
    pub seqno: u64,
    pub parent: Option<u64>,
    pub file_ids: Seq<Seq<char>>,
    pub dirs: Seq<Seq<char>>,
    pub journals: Seq<Seq<char>>,
    pub pointers: Seq<Content>,
    pub checksums: Seq<Digest>,
    pub journal_checksums: Seq<Digest>,
    pub is_snapshot: bool,
    pub ts_millis: u64,
}

impl View for VersionRecord {
    type V = RecordView;

    open spec fn view(&self) -> RecordView {
        RecordView {
            seqno: self.seqno,
            parent: self.parent,
            file_ids: id_texts(self.file_ids@),
            dirs: texts(self.dirs@),
            journals: texts(self.journals@),
            pointers: contents(self.pointers@),
            checksums: digests(self.checksums@),
            journal_checksums: digests(self.journal_checksums@),
            is_snapshot: self.is_snapshot,
            ts_millis: self.ts_millis,
        }
    }
}

/// A reader's position in the replication stream. This is a log position, never a per-key seqno
/// (fjall rewrites per-key seqnos to 0 during bottom-level compaction).
#[derive(Debug, Clone, Copy, PartialEq, Eq, Structural)]
pub struct Cursor {
    pub version_seqno: u64,
    pub journal_offset: u64,
}

/// What point in time to restore to.
#[derive(Debug, Clone)]
pub enum RestoreTarget {
    /// The newest version available.
    Latest,
    /// The newest version at or before this seqno watermark.
    Seqno(u64),
    /// The newest version at or before this wall-clock time (millis since Unix epoch).
    TimestampMillis(u64),
}

/// A version record is read as it is written: every field, and in every list every entry in its place.
pub proof fn law_a_record_is_read_as_it_is(record: VersionRecord, i: int)
    ensures
        record@.seqno == record.seqno,
        record@.parent == record.parent,
        record@.is_snapshot == record.is_snapshot,
        record@.ts_millis == record.ts_millis,
        record@.file_ids.len() == record.file_ids@.len(),
        record@.dirs.len() == record.dirs@.len(),
        record@.journals.len() == record.journals@.len(),
        record@.pointers.len() == record.pointers@.len(),
        record@.checksums.len() == record.checksums@.len(),
        record@.journal_checksums.len() == record.journal_checksums@.len(),
        0 <= i < record.file_ids@.len() ==> record@.file_ids[i] == record.file_ids@[i].0@,
        0 <= i < record.dirs@.len() ==> record@.dirs[i] == record.dirs@[i]@,
        0 <= i < record.journals@.len() ==> record@.journals[i] == record.journals@[i]@,
        0 <= i < record.pointers@.len() ==> record@.pointers[i].path == record.pointers@[i].path@
            && record@.pointers[i].bytes == record.pointers@[i].bytes@,
        0 <= i < record.checksums@.len() ==> record@.checksums[i].path
            == record.checksums@[i].path@ && record@.checksums[i].hash == record.checksums@[i].hash,
        0 <= i < record.journal_checksums@.len() ==> record@.journal_checksums[i].path
            == record.journal_checksums@[i].path@ && record@.journal_checksums[i].hash
            == record.journal_checksums@[i].hash,
{
}

} // verus!
