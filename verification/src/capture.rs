//! Captures a consistent, complete file set from a live database directory.
//!
//! Every keyspace is flushed first, so that committed data is in immutable files. Then, while a
//! snapshot keeps those files from being deleted:
//!
//! 1. The directory is walked: immutable files become content-addressed `files`; the per-keyspace
//!    `current` HEAD pointers are taken by value; `*.jnl` are taken as per-version journals;
//!    `lock` is skipped.
//! 2. The capture is checked. A snapshot pins the data, but background compaction still rewrites
//!    the manifest and `current`, and journals are rotated and truncated. If no `current` moved
//!    across the walk, each points at a fully written manifest that was captured: fjall writes a
//!    manifest fully *before* it flips `current` to it. The keyspace set must not have changed,
//!    nor the set of journals, nor the length of a journal across its read.
//! 3. Where something moved, all is dropped and tried again, a few times.
//!
//! The caller does the reading; the steps here say what to read, and what it means.

use vstd::prelude::*;
use vstd::string::*;
use std::path::PathBuf;
use crate::error::Error;
use crate::keyset::KeySet;
use crate::lists::lemma_push_contains;
use crate::replicator::{named_contents, LocalVersion, VersionView};
use crate::text::{ends_with, has_suffix, replace_char, replaced, same_text, texts};
use crate::types::{contents, Content, FileId, PointerFile};

verus! {

/// How many times to try a capture if background work churns the directory mid-walk.
pub const CAPTURE_RETRIES: usize = 8;

/// What an entry of the database directory is to a capture.
#[derive(Debug, Clone, Copy, PartialEq, Eq, Structural)]
pub enum EntryKind {
    /// A directory: it is recorded, and walked.
    Directory,
    /// The lock: a runtime artifact that a restore recreates. It is never replicated.
    Lock,
    /// A journal: mutable, shipped with each version.
    Journal,
    /// A HEAD pointer: rewritten in place, so it cannot be content-addressed.
    Pointer,
    /// An immutable file: a table, a blob, a manifest, or the format marker.
    Immutable,
}

/// What the entry at `rel`, with the final component `name`, is to a capture.
pub open spec fn entry_kind(rel: Seq<char>, name: Seq<char>, is_dir: bool) -> EntryKind {
    if is_dir {
        EntryKind::Directory
    } else if name == "lock"@ {
        EntryKind::Lock
    } else if ends_with(rel, ".jnl"@) {
        EntryKind::Journal
    } else if name == "current"@ {
        EntryKind::Pointer
    } else {
        EntryKind::Immutable
    }
}

/// What the entry at `rel`, with the final component `name`, is to a capture.
pub fn classify(rel: &str, name: &str, is_dir: bool) -> (r: EntryKind)
    ensures
        r == entry_kind(rel@, name@, is_dir),
{
    if is_dir {
        EntryKind::Directory
    } else if same_text(name, "lock") {
        EntryKind::Lock
    } else if has_suffix(rel, ".jnl") {
        EntryKind::Journal
    } else if same_text(name, "current") {
        EntryKind::Pointer
    } else {
        EntryKind::Immutable
    }
}

/// What a walk of the database directory found.
pub struct Walk {
    files: Vec<(FileId, PathBuf)>,
    dirs: Vec<String>,
    journals: Vec<(String, PathBuf)>,
    pointers: Vec<PointerFile>,
}

/// What a [`Walk`] found: each file and journal with its place on disk.
#[verifier::ext_equal]
pub struct WalkView {
    pub files: Seq<(Seq<char>, PathBuf)>,
    pub dirs: Seq<Seq<char>>,
    pub journals: Seq<(Seq<char>, PathBuf)>,
    pub pointers: Seq<Content>,
}

/// Files by id, with their places.
pub open spec fn placed_files(v: Seq<(FileId, PathBuf)>) -> Seq<(Seq<char>, PathBuf)> {
    Seq::new(v.len(), |i: int| (v[i].0.0@, v[i].1))
}

/// Journals by name, with their places.
pub open spec fn placed_journals(v: Seq<(String, PathBuf)>) -> Seq<(Seq<char>, PathBuf)> {
    Seq::new(v.len(), |i: int| (v[i].0@, v[i].1))
}

/// The names alone.
pub open spec fn names_of(v: Seq<(Seq<char>, PathBuf)>) -> Seq<Seq<char>> {
    Seq::new(v.len(), |i: int| v[i].0)
}

impl View for Walk {
    type V = WalkView;

    closed spec fn view(&self) -> WalkView {
        WalkView {
            files: placed_files(self.files@),
            dirs: texts(self.dirs@),
            journals: placed_journals(self.journals@),
            pointers: contents(self.pointers@),
        }
    }
}

impl WalkView {
    /// A walk that has found nothing.
    pub open spec fn empty() -> WalkView {
        WalkView {
            files: Seq::empty(),
            dirs: Seq::empty(),
            journals: Seq::empty(),
            pointers: Seq::empty(),
        }
    }

    /// The walk with the bytes of one more pointer.
    pub open spec fn pointed(self, rel: Seq<char>, bytes: Seq<u8>) -> WalkView {
        WalkView { pointers: self.pointers.push(Content { path: rel, bytes }), ..self }
    }

    /// The walk with one more entry. A pointer is added when its bytes are known.
    pub open spec fn visited(self, rel: Seq<char>, kind: EntryKind, path: PathBuf) -> WalkView {
        match kind {
            EntryKind::Directory => WalkView { dirs: self.dirs.push(rel), ..self },
            EntryKind::Journal => WalkView { journals: self.journals.push((rel, path)), ..self },
            EntryKind::Immutable => WalkView { files: self.files.push((rel, path)), ..self },
            EntryKind::Lock => self,
            EntryKind::Pointer => self,
        }
    }
}

impl Walk {
    /// A walk that has found nothing yet.
    pub fn new() -> (r: Self)
        ensures
            r@ == WalkView::empty(),
    {
        let r = Walk {
            files: Vec::new(),
            dirs: Vec::new(),
            journals: Vec::new(),
            pointers: Vec::new(),
        };
        assert(r@ =~= WalkView::empty());
        r
    }

    /// Take in the entry at `path`. `rel` is its path relative to the database root, `name` its
    /// final component. A directory is to be walked next; the bytes of a pointer are to be read
    /// and handed to [`Walk::pointer`].
    pub fn visit(&mut self, rel: &str, name: &str, is_dir: bool, path: PathBuf) -> (kind: EntryKind)
        ensures
            kind == entry_kind(replaced(rel@, '\\', '/'), name@, is_dir),
            final(self)@ == old(self)@.visited(replaced(rel@, '\\', '/'), kind, path),
    {
        let rel = replace_char(rel, '\\', '/');
        let kind = classify(rel.as_str(), name, is_dir);
        match kind {
            EntryKind::Directory => {
                self.dirs.push(rel);
                assert(texts(self.dirs@) =~= texts(old(self).dirs@).push(rel@));
            },
            EntryKind::Journal => {
                self.journals.push((rel, path));
                assert(placed_journals(self.journals@) =~= placed_journals(
                    old(self).journals@,
                ).push((rel@, path)));
            },
            EntryKind::Immutable => {
                self.files.push((FileId(rel), path));
                assert(placed_files(self.files@) =~= placed_files(old(self).files@).push(
                    (rel@, path),
                ));
            },
            EntryKind::Lock => {},
            EntryKind::Pointer => {},
        }
        kind
    }

    /// Take in the bytes of the pointer file at `rel`.
    pub fn pointer(&mut self, rel: &str, bytes: Vec<u8>)
        ensures
            final(self)@ == old(self)@.pointed(replaced(rel@, '\\', '/'), bytes@),
    {
        let path = replace_char(rel, '\\', '/');
        self.pointers.push(PointerFile { path, bytes });
        assert(contents(self.pointers@) =~= contents(old(self).pointers@).push(
            Content { path: path@, bytes: bytes@ },
        ));
    }
}

/// A captured version, and how many tries were dropped before it (0: the first one held).
pub struct Captured {
    pub version: LocalVersion,
    pub retries: u32,
}

/// What was captured: each file with its place on disk, and the rest of the version.
#[verifier::ext_equal]
pub struct CapturedView {
    pub files: Seq<(Seq<char>, PathBuf)>,
    pub version: VersionView,
    pub retries: int,
}

impl View for Captured {
    type V = CapturedView;

    open spec fn view(&self) -> CapturedView {
        CapturedView {
            files: placed_files(self.version.files@),
            version: self.version@,
            retries: self.retries as int,
        }
    }
}

/// A try: which one, and the version before.
#[verifier::ext_equal]
pub struct TryView {
    pub parent: Option<u64>,
    pub attempt: int,
}

/// What a [`CaptureStep`] asks for.
pub enum CaptureView {
    /// Drop the snapshot, take a new one and walk.
    Again(TryView),
    /// Read the pointer with this index again.
    CheckPointer(TryView, WalkView, int),
    /// List the names in the database root.
    ListJournals(TryView, WalkView),
    /// Read the journal with this index. Those before it were read.
    ReadJournal(TryView, WalkView, int, Seq<Content>),
    /// Read the next sequence number of the database.
    ReadSeqno(TryView, WalkView, Seq<Content>),
    /// Something moved each time.
    GiveUp,
}

impl TryView {
    /// The next try, if there is one.
    pub open spec fn again(self) -> CaptureView {
        if self.attempt + 1 < CAPTURE_RETRIES {
            CaptureView::Again(TryView { attempt: self.attempt + 1, ..self })
        } else {
            CaptureView::GiveUp
        }
    }

    /// What comes after `at` pointers were found unchanged.
    pub open spec fn after_pointers(self, walk: WalkView, at: int) -> CaptureView {
        if at < walk.pointers.len() {
            CaptureView::CheckPointer(self, walk, at)
        } else {
            CaptureView::ListJournals(self, walk)
        }
    }

    /// What comes after `at` journals were read.
    pub open spec fn after_journals(self, walk: WalkView, at: int, read: Seq<Content>) -> CaptureView {
        if at < walk.journals.len() {
            CaptureView::ReadJournal(self, walk, at, read)
        } else {
            CaptureView::ReadSeqno(self, walk, read)
        }
    }

    /// What comes when the walk is done, with the number of keyspaces before and after it. `None`:
    /// something vanished under it.
    pub open spec fn walked(self, walk: Option<WalkView>, before: int, after: int) -> CaptureView {
        match walk {
            Some(walk) => if before == after {
                self.after_pointers(walk, 0)
            } else {
                self.again()
            },
            None => self.again(),
        }
    }

    /// What comes when the pointer with this index was read again, or was gone.
    pub open spec fn checked(self, walk: WalkView, at: int, now: Option<Seq<u8>>) -> CaptureView {
        if now == Some(walk.pointers[at].bytes) {
            self.after_pointers(walk, at + 1)
        } else {
            self.again()
        }
    }

    /// What comes when the database root was listed.
    pub open spec fn listed(self, walk: WalkView, names: Seq<Seq<char>>) -> CaptureView {
        if same_journals(names, names_of(walk.journals)) {
            self.after_journals(walk, 0, Seq::empty())
        } else {
            self.again()
        }
    }

    /// What comes when the journal with this index was read, or was gone.
    pub open spec fn journal_read(
        self,
        walk: WalkView,
        at: int,
        read: Seq<Content>,
        outcome: Option<(u64, Seq<u8>, u64)>,
    ) -> CaptureView {
        if read_whole(outcome) {
            self.after_journals(
                walk,
                at + 1,
                read.push(Content { path: walk.journals[at].0, bytes: (outcome->0).1 }),
            )
        } else {
            self.again()
        }
    }

    /// What is captured, under this sequence number.
    pub open spec fn captured(self, walk: WalkView, read: Seq<Content>, seqno: u64) -> CapturedView {
        CapturedView {
            files: walk.files,
            version: VersionView {
                seqno,
                parent: self.parent,
                files: names_of(walk.files),
                dirs: walk.dirs,
                journals: read,
                pointers: walk.pointers,
            },
            retries: self.attempt,
        }
    }
}

/// The journals in the database root are exactly those that the walk found.
pub open spec fn same_journals(names: Seq<Seq<char>>, walked: Seq<Seq<char>>) -> bool {
    forall|name: Seq<char>| #[trigger]
        walked.contains(name) <==> names.contains(name) && ends_with(name, ".jnl"@)
}

/// A journal was read whole: its length before, its bytes and its length after agree.
pub open spec fn read_whole(read: Option<(u64, Seq<u8>, u64)>) -> bool {
    read matches Some((before, bytes, after)) && before == after && bytes.len() == after
}

/// Begin a capture. `parent` is the sequence number of the version before, if any.
pub fn capture(parent: Option<u64>) -> (r: Attempt)
    ensures
        r@ == (TryView { parent, attempt: 0 }),
{
    Attempt { parent, attempt: 0 }
}

/// What to do next.
pub enum CaptureStep {
    /// Drop the snapshot and try again.
    Again(Attempt),
    /// Read a pointer again.
    CheckPointer(CheckPointer),
    /// List the database root.
    ListJournals(ListJournals),
    /// Read a journal.
    ReadJournal(ReadJournal),
    /// Read the sequence number.
    ReadSeqno(ReadSeqno),
    /// No try held.
    GiveUp(Error),
}

impl View for CaptureStep {
    type V = CaptureView;

    open spec fn view(&self) -> CaptureView {
        match *self {
            CaptureStep::Again(s) => CaptureView::Again(s@),
            CaptureStep::CheckPointer(s) => CaptureView::CheckPointer(s.attempt(), s.walk(), s.index()),
            CaptureStep::ListJournals(s) => CaptureView::ListJournals(s.attempt(), s.walk()),
            CaptureStep::ReadJournal(s) => CaptureView::ReadJournal(
                s.attempt(),
                s.walk(),
                s.at(),
                s.read(),
            ),
            CaptureStep::ReadSeqno(s) => CaptureView::ReadSeqno(s.attempt(), s.walk(), s.read()),
            CaptureStep::GiveUp(_) => CaptureView::GiveUp,
        }
    }
}

impl CaptureStep {
    /// A capture that gives up says so.
    pub open spec fn gives_up_in_words(self) -> bool {
        self matches CaptureStep::GiveUp(e) ==> e matches Error::Fjall(what) && what@
            == "could not capture a stable manifest after 8 tries (compaction churn)"@
    }
}

/// One try of a capture: take a snapshot, count the keyspaces, walk, and count them again.
pub struct Attempt {
    parent: Option<u64>,
    attempt: u32,
}

impl View for Attempt {
    type V = TryView;

    closed spec fn view(&self) -> TryView {
        TryView { parent: self.parent, attempt: self.attempt as int }
    }
}

impl Attempt {
    #[verifier::type_invariant]
    spec fn valid(self) -> bool {
        self.attempt < CAPTURE_RETRIES
    }

    /// Something moved.
    fn again(self) -> (r: CaptureStep)
        ensures
            r@ == self@.again(),
            r.gives_up_in_words(),
    {
        proof {
            use_type_invariant(&self);
        }
        if ((self.attempt + 1) as usize) < CAPTURE_RETRIES {
            CaptureStep::Again(Attempt { parent: self.parent, attempt: self.attempt + 1 })
        } else {
            CaptureStep::GiveUp(
                Error::Fjall(
                    "could not capture a stable manifest after 8 tries (compaction churn)".to_owned(),
                ),
            )
        }
    }

    fn after_pointers(self, walk: Walk, at: usize) -> (r: CaptureStep)
        ensures
            r@ == self@.after_pointers(walk@, at as int),
            r.gives_up_in_words(),
    {
        if at < walk.pointers.len() {
            CaptureStep::CheckPointer(CheckPointer { attempt: self, walk, at })
        } else {
            CaptureStep::ListJournals(ListJournals { attempt: self, walk })
        }
    }

    fn after_journals(self, walk: Walk, at: usize, read: Vec<(String, Vec<u8>)>) -> (r: CaptureStep)
        ensures
            r@ == self@.after_journals(walk@, at as int, named_contents(read@)),
            r.gives_up_in_words(),
    {
        if at < walk.journals.len() {
            CaptureStep::ReadJournal(ReadJournal { attempt: self, walk, at, read })
        } else {
            CaptureStep::ReadSeqno(ReadSeqno { attempt: self, walk, read })
        }
    }

    /// A file or directory vanished mid-walk: the walk raced background work.
    pub fn vanished(self) -> (r: CaptureStep)
        ensures
            r@ == self@.again(),
            forall|before: int, after: int| r@ == #[trigger] self@.walked(None, before, after),
            r.gives_up_in_words(),
    {
        self.again()
    }

    /// The walk is done. A keyspace created or dropped meanwhile would be captured torn, so the
    /// number of keyspaces before and after must agree.
    pub fn walked(self, walk: Walk, keyspaces_before: usize, keyspaces_after: usize) -> (r: CaptureStep)
        ensures
            r@ == self@.walked(Some(walk@), keyspaces_before as int, keyspaces_after as int),
            r.gives_up_in_words(),
    {
        if keyspaces_before == keyspaces_after {
            self.after_pointers(walk, 0)
        } else {
            self.again()
        }
    }
}

/// Whether the two hold the same bytes.
fn same_bytes(a: &Vec<u8>, b: &Vec<u8>) -> (r: bool)
    ensures
        r == (a@ == b@),
{
    if a.len() != b.len() {
        return false;
    }
    let mut i: usize = 0;
    while i < a.len()
        invariant
            i <= a.len(),
            a.len() == b.len(),
            forall|j: int| 0 <= j < i ==> a@[j] == b@[j],
        decreases a.len() - i,
    {
        if a[i] != b[i] {
            return false;
        }
        i += 1;
    }
    assert(a@ =~= b@);
    true
}

/// The question whether a pointer still holds what the walk read.
pub struct CheckPointer {
    attempt: Attempt,
    walk: Walk,
    at: usize,
}

impl CheckPointer {
    #[verifier::type_invariant]
    spec fn valid(self) -> bool {
        self.at < self.walk.pointers@.len()
    }

    pub closed spec fn attempt(self) -> TryView {
        self.attempt@
    }

    pub closed spec fn walk(self) -> WalkView {
        self.walk@
    }

    pub closed spec fn index(self) -> int {
        self.at as int
    }

    /// The path of the pointer, relative to the database root.
    pub fn path(&self) -> (r: &String)
        ensures
            0 <= self.index() < self.walk().pointers.len(),
            r@ == self.walk().pointers[self.index()].path,
    {
        proof {
            use_type_invariant(self);
        }
        &self.walk.pointers[self.at].path
    }

    /// The bytes that it holds now, or `None` if it is gone.
    pub fn answer(self, now: Option<Vec<u8>>) -> (r: CaptureStep)
        ensures
            r@ == match now {
                Some(bytes) => self.attempt().checked(self.walk(), self.index(), Some(bytes@)),
                None => self.attempt().checked(self.walk(), self.index(), None),
            },
            r.gives_up_in_words(),
    {
        proof {
            use_type_invariant(&self);
            assert(self.at < self.walk.pointers.len());
        }
        let unchanged: bool = match &now {
            Some(bytes) => same_bytes(bytes, &self.walk.pointers[self.at].bytes),
            None => false,
        };
        if unchanged {
            self.attempt.after_pointers(self.walk, self.at + 1)
        } else {
            self.attempt.again()
        }
    }
}

/// The request to list the names in the database root.
pub struct ListJournals {
    attempt: Attempt,
    walk: Walk,
}

impl ListJournals {
    pub closed spec fn attempt(self) -> TryView {
        self.attempt@
    }

    pub closed spec fn walk(self) -> WalkView {
        self.walk@
    }

    /// The names. A rotation that added or removed a journal shows here.
    pub fn answer(self, names: &Vec<String>) -> (r: CaptureStep)
        ensures
            r@ == self.attempt().listed(self.walk(), texts(names@)),
            r.gives_up_in_words(),
    {
        if journals_match(names, &self.walk.journals) {
            let read: Vec<(String, Vec<u8>)> = Vec::new();
            assert(named_contents(read@) =~= Seq::empty());
            self.attempt.after_journals(self.walk, 0, read)
        } else {
            self.attempt.again()
        }
    }
}

/// Whether the journals among `names` are exactly those that were walked.
fn journals_match(names: &Vec<String>, walked: &Vec<(String, PathBuf)>) -> (r: bool)
    ensures
        r == same_journals(texts(names@), names_of(placed_journals(walked@))),
{
    let ghost all = texts(names@);
    let ghost seen = names_of(placed_journals(walked@));
    let mut on_disk = KeySet::new();
    let mut i: usize = 0;
    while i < names.len()
        invariant
            i <= names.len(),
            all == texts(names@),
            forall|n: Seq<char>| #[trigger]
                on_disk@.contains(n) <==> all.take(i as int).contains(n) && ends_with(n, ".jnl"@),
        decreases names.len() - i,
    {
        let ghost was = on_disk@;
        let ghost name = names[i as int]@;
        if has_suffix(names[i].as_str(), ".jnl") {
            on_disk.insert(names[i].as_str());
        }
        proof {
            assert(all.take(i + 1) =~= all.take(i as int).push(name));
            assert forall|n: Seq<char>| #[trigger]
                on_disk@.contains(n) <==> all.take(i + 1).contains(n) && ends_with(n, ".jnl"@) by {
                lemma_push_contains(all.take(i as int), name, n);
                assert(was.contains(n) <==> all.take(i as int).contains(n) && ends_with(
                    n,
                    ".jnl"@,
                ));
            }
        }
        i += 1;
    }
    assert(all.take(i as int) =~= all);
    let mut captured = KeySet::new();
    let mut j: usize = 0;
    while j < walked.len()
        invariant
            j <= walked.len(),
            seen == names_of(placed_journals(walked@)),
            all == texts(names@),
            forall|n: Seq<char>| #[trigger]
                on_disk@.contains(n) <==> all.contains(n) && ends_with(n, ".jnl"@),
            forall|n: Seq<char>| #[trigger]
                captured@.contains(n) <==> seen.take(j as int).contains(n),
            forall|l: int| 0 <= l < j ==> on_disk@.contains(#[trigger] seen[l]),
        decreases walked.len() - j,
    {
        let ghost was = captured@;
        let ghost name = walked[j as int].0@;
        assert(seen[j as int] == name);
        if !on_disk.contains(walked[j].0.as_str()) {
            assert(seen.contains(name));
            return false;
        }
        captured.insert(walked[j].0.as_str());
        proof {
            assert(seen.take(j + 1) =~= seen.take(j as int).push(name));
            assert forall|n: Seq<char>| #[trigger]
                captured@.contains(n) <==> seen.take(j + 1).contains(n) by {
                lemma_push_contains(seen.take(j as int), name, n);
                assert(was.contains(n) <==> seen.take(j as int).contains(n));
            }
        }
        j += 1;
    }
    assert(seen.take(j as int) =~= seen);
    let mut k: usize = 0;
    while k < names.len()
        invariant
            k <= names.len(),
            all == texts(names@),
            seen == names_of(placed_journals(walked@)),
            forall|n: Seq<char>| #[trigger] captured@.contains(n) <==> seen.contains(n),
            forall|l: int|
                0 <= l < k && ends_with(#[trigger] all[l], ".jnl"@) ==> seen.contains(all[l]),
        decreases names.len() - k,
    {
        assert(all[k as int] == names[k as int]@);
        if has_suffix(names[k].as_str(), ".jnl") && !captured.contains(names[k].as_str()) {
            assert(all.contains(all[k as int]));
            assert(!seen.contains(all[k as int]));
            return false;
        }
        k += 1;
    }
    proof {
        assert forall|n: Seq<char>| #[trigger]
            seen.contains(n) <==> all.contains(n) && ends_with(n, ".jnl"@) by {
            if seen.contains(n) {
                let l = seen.index_of(n);
                assert(on_disk@.contains(seen[l]));
            }
            if all.contains(n) && ends_with(n, ".jnl"@) {
                let l = all.index_of(n);
                assert(seen.contains(all[l]));
            }
        }
    }
    true
}

/// The request to read a journal, with its length before and after.
pub struct ReadJournal {
    attempt: Attempt,
    walk: Walk,
    at: usize,
    read: Vec<(String, Vec<u8>)>,
}

impl ReadJournal {
    #[verifier::type_invariant]
    spec fn valid(self) -> bool {
        self.at < self.walk.journals@.len()
    }

    pub closed spec fn attempt(self) -> TryView {
        self.attempt@
    }

    pub closed spec fn walk(self) -> WalkView {
        self.walk@
    }

    pub closed spec fn at(self) -> int {
        self.at as int
    }

    pub closed spec fn read(self) -> Seq<Content> {
        named_contents(self.read@)
    }

    /// Where the journal is.
    pub fn path(&self) -> (r: &PathBuf)
        ensures
            0 <= self.at() < self.walk().journals.len(),
            *r == self.walk().journals[self.at()].1,
    {
        proof {
            use_type_invariant(self);
        }
        &self.walk.journals[self.at].1
    }

    /// Its length before the read, its bytes, and its length after; or `None` if it was gone. A
    /// length that moved means that the bytes may be torn.
    pub fn answer(self, outcome: Option<(u64, Vec<u8>, u64)>) -> (r: CaptureStep)
        ensures
            r@ == self.attempt().journal_read(
                self.walk(),
                self.at(),
                self.read(),
                match outcome {
                    Some((before, bytes, after)) => Some((before, bytes@, after)),
                    None => None,
                },
            ),
            r.gives_up_in_words(),
    {
        proof {
            use_type_invariant(&self);
            assert(self.at < self.walk.journals.len());
        }
        match outcome {
            Some((before, bytes, after)) => {
                if before == after && bytes.len() as u64 == after {
                    let name = self.walk.journals[self.at].0.clone();
                    let ghost was = named_contents(self.read@);
                    let mut read: Vec<(String, Vec<u8>)> = self.read;
                    read.push((name, bytes));
                    assert(named_contents(read@) =~= was.push(
                        Content { path: name@, bytes: bytes@ },
                    ));
                    self.attempt.after_journals(self.walk, self.at + 1, read)
                } else {
                    self.attempt.again()
                }
            },
            None => self.attempt.again(),
        }
    }
}

/// The request to read the next sequence number of the database. It is read *after* the
/// journals, so it exceeds every write that they contain: a restore at or before it never gives
/// back content past it.
pub struct ReadSeqno {
    attempt: Attempt,
    walk: Walk,
    read: Vec<(String, Vec<u8>)>,
}

impl ReadSeqno {
    pub closed spec fn attempt(self) -> TryView {
        self.attempt@
    }

    pub closed spec fn walk(self) -> WalkView {
        self.walk@
    }

    pub closed spec fn read(self) -> Seq<Content> {
        named_contents(self.read@)
    }

    /// The sequence number.
    pub fn answer(self, seqno: u64) -> (r: Captured)
        ensures
            r@ == self.attempt().captured(self.walk(), self.read(), seqno),
    {
        let version = LocalVersion {
            seqno,
            parent: self.attempt.parent,
            files: self.walk.files,
            dirs: self.walk.dirs,
            journals: self.read,
            pointers: self.walk.pointers,
        };
        let r = Captured { version, retries: self.attempt.attempt };
        assert(version@.files =~= names_of(placed_files(version.files@)));
        assert(r@ =~= self.attempt().captured(self.walk(), self.read(), seqno));
        r
    }
}

} // verus!
