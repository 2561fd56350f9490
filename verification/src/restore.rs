//! Cold reader. Reconstructs a local database directory at a chosen point in time.
//!
//! Restore is "replicate, run backward once": pick the newest version record at or before the
//! target, download its files, check them, write them to a staging directory, and rename that
//! into place.
//!
//! It is a conversation: each step says what to fetch or what to write in the staging directory.
//! The last one gives a [`Restored`], which exists only for a version of which everything was
//! fetched, checked and written.

use vstd::prelude::*;
use vstd::string::*;
use vstd::slice::slice_to_vec;
use crate::checksum::{intact, verified};
use crate::compress::{gunzip, gunzip_stream};
use crate::error::Error;
use crate::layout::Layout;
use crate::order::{sort_texts, sorted_texts};
use crate::text::texts;
use crate::types::{Content, FileId, RecordView, RestoreTarget, VersionRecord};

verus! {

/// Whether a version lies at or before the target.
pub open spec fn admitted(target: RestoreTarget, record: RecordView) -> bool {
    match target {
        RestoreTarget::Latest => true,
        RestoreTarget::Seqno(want) => record.seqno <= want,
        RestoreTarget::TimestampMillis(want) => record.ts_millis <= want,
    }
}

impl RestoreTarget {
    /// Whether a version lies at or before this target.
    pub fn admits(&self, record: &VersionRecord) -> (r: bool)
        ensures
            r == admitted(*self, record@),
    {
        match self {
            RestoreTarget::Latest => true,
            RestoreTarget::Seqno(want) => record.seqno <= *want,
            RestoreTarget::TimestampMillis(want) => record.ts_millis <= *want,
        }
    }
}

/// A walk over version keys, newest first: the records of the first `left` keys are still to be
/// looked at.
#[verifier::ext_equal]
pub struct SearchView {
    pub keys: Seq<Seq<char>>,
    pub target: RestoreTarget,
    pub left: int,
}

/// The search for the version record that matches a target.
pub struct Search {
    keys: Vec<String>,
    target: RestoreTarget,
    left: usize,
}

impl View for Search {
    type V = SearchView;

    closed spec fn view(&self) -> SearchView {
        SearchView { keys: texts(self.keys@), target: self.target, left: self.left as int }
    }
}

/// Where a search stands after one more record.
pub enum ResolutionView {
    /// The record is the result.
    Found,
    /// An older record has to be looked at.
    Continue(SearchView),
    /// There is none.
    NotFound,
}

impl SearchView {
    /// Where the search stands when the record under the next key is this one.
    pub open spec fn answered(self, record: RecordView) -> ResolutionView {
        if admitted(self.target, record) {
            ResolutionView::Found
        } else if self.left > 1 {
            ResolutionView::Continue(SearchView { left: self.left - 1, ..self })
        } else {
            ResolutionView::NotFound
        }
    }
}

/// Where a search stands after one more record.
pub enum Resolution {
    /// This is the record.
    Found(VersionRecord),
    /// An older record has to be looked at.
    Continue(Search),
}

/// Begin to look for the version record matching `target` among the listed version keys.
pub fn resolve_version(keys: Vec<String>, target: RestoreTarget) -> (r: Result<Search, Error>)
    ensures
        match r {
            Ok(search) => {
                &&& keys@.len() > 0
                &&& sorted_texts(search@.keys)
                &&& search@.keys.to_multiset() == texts(keys@).to_multiset()
                &&& search@.target == target
                &&& search@.left == keys@.len()
                &&& search@.keys.len() == keys@.len()
            },
            Err(e) => keys@.len() == 0 && (e matches Error::NotFound(what) && what@
                == "no version records in generation"@),
        },
{
    if keys.len() == 0 {
        return Err(Error::NotFound("no version records in generation".to_owned()));
    }
    let keys = sort_texts(keys);
    let left: usize = keys.len();
    Ok(Search { keys, target, left })
}

impl Search {
    #[verifier::type_invariant]
    spec fn valid(self) -> bool {
        0 < self.left <= self.keys@.len()
    }

    /// The key of the record to look at next.
    pub fn key(&self) -> (r: String)
        ensures
            0 < self@.left <= self@.keys.len(),
            r@ == self@.keys[self@.left - 1],
    {
        proof {
            use_type_invariant(self);
        }
        self.keys[self.left - 1].clone()
    }

    /// The record under that key. It is the result if the target admits it; else the next older
    /// one is looked at, and where there is none, no version matches.
    pub fn answer(self, record: VersionRecord) -> (r: Result<Resolution, Error>)
        ensures
            match r {
                Ok(Resolution::Found(found)) => admitted(self@.target, record@) && found == record
                    && self@.answered(record@) is Found,
                Ok(Resolution::Continue(next)) => !admitted(self@.target, record@) && self@.left > 1
                    && next@ == (SearchView { left: self@.left - 1, ..self@ }) && self@.answered(
                    record@,
                ) == ResolutionView::Continue(next@),
                Err(e) => !admitted(self@.target, record@) && self@.left == 1 && self@.answered(
                    record@,
                ) is NotFound && (e matches Error::NotFound(what) && what@
                    == "no version matches restore target"@),
            },
    {
        proof {
            use_type_invariant(&self);
        }
        if self.target.admits(&record) {
            Ok(Resolution::Found(record))
        } else if self.left > 1 {
            Ok(Resolution::Continue(Search { left: self.left - 1, ..self }))
        } else {
            Err(Error::NotFound("no version matches restore target".to_owned()))
        }
    }
}

/// One thing to do in the staging directory. Paths are relative to it.
enum Action {
    MakeDir(String),
    FetchFile { key: String, path: String },
    FetchJournal { key: String, path: String },
    Write { path: String, bytes: Vec<u8> },
}

/// One thing to do in the staging directory. Paths are relative to it.
pub enum ActionView {
    /// Create a directory.
    MakeDir(Seq<char>),
    /// Fetch an immutable file and write what [`file_content`] gives for it.
    FetchFile { key: Seq<char>, path: Seq<char> },
    /// Fetch a compressed journal and write what [`journal_content`] gives for it.
    FetchJournal { key: Seq<char>, path: Seq<char> },
    /// Write a file.
    Write { path: Seq<char>, bytes: Seq<u8> },
}

impl View for Action {
    type V = ActionView;

    closed spec fn view(&self) -> ActionView {
        match *self {
            Action::MakeDir(path) => ActionView::MakeDir(path@),
            Action::FetchFile { key, path } => ActionView::FetchFile { key: key@, path: path@ },
            Action::FetchJournal { key, path } => ActionView::FetchJournal { key: key@, path: path@ },
            Action::Write { path, bytes } => ActionView::Write { path: path@, bytes: bytes@ },
        }
    }
}

/// What a list of actions asks for.
spec fn action_views(v: Seq<Action>) -> Seq<ActionView> {
    Seq::new(v.len(), |i: int| v[i]@)
}

/// Every directory, including empty ones (fjall's recovery does not create a keyspace's
/// `tables/`).
pub open spec fn dir_actions(record: RecordView) -> Seq<ActionView> {
    Seq::new(record.dirs.len(), |i: int| ActionView::MakeDir(record.dirs[i]))
}

/// Every immutable file, at the path that is its id.
pub open spec fn file_actions(layout: Layout, record: RecordView) -> Seq<ActionView> {
    Seq::new(
        record.file_ids.len(),
        |i: int|
            ActionView::FetchFile {
                key: layout.file_key(record.file_ids[i]),
                path: record.file_ids[i],
            },
    )
}

/// Every journal of the version. Without them the restored database has no sequence-number
/// watermark.
pub open spec fn journal_actions(layout: Layout, record: RecordView) -> Seq<ActionView> {
    Seq::new(
        record.journals.len(),
        |i: int|
            ActionView::FetchJournal {
                key: layout.journal_key(record.seqno, record.journals[i]),
                path: record.journals[i],
            },
    )
}

/// Every pointer file, from the record itself.
pub open spec fn pointer_actions(record: RecordView) -> Seq<ActionView> {
    Seq::new(
        record.pointers.len(),
        |i: int|
            ActionView::Write { path: record.pointers[i].path, bytes: record.pointers[i].bytes },
    )
}

/// All that restores a version, in order. The lock file comes last: fjall's recovery opens it and
/// does not create it.
pub open spec fn restore_actions(layout: Layout, record: RecordView) -> Seq<ActionView> {
    dir_actions(record) + file_actions(layout, record) + journal_actions(layout, record)
        + pointer_actions(record) + seq![ActionView::Write { path: "lock"@, bytes: Seq::empty() }]
}

/// What is appended to the name of the target for the directory that a restore is staged in.
pub const STAGING_SUFFIX: &'static str = ".fjallstream-restore-tmp";

/// How to restore a version: follow the steps from `first` on in a fresh directory named `staging`
/// beside the target. The last step renames it to the target: a crash before that leaves the target
/// absent or untouched, never half-built.
pub struct RestorePlan {
    pub staging: String,
    pub first: RestoreStep,
}

/// The lock file, which a restore recreates.
pub open spec fn lock_file() -> Content {
    Content { path: "lock"@, bytes: Seq::empty() }
}

/// The bytes are what the action may write.
pub open spec fn fits(record: RecordView, action: ActionView, file: Content) -> bool {
    match action {
        ActionView::MakeDir(_) => false,
        ActionView::FetchFile { path, .. } => file.path == path && intact(
            record.checksums,
            path,
            file.bytes,
        ),
        ActionView::FetchJournal { path, .. } => file.path == path && intact(
            record.journal_checksums,
            path,
            file.bytes,
        ),
        ActionView::Write { path, bytes } => file == Content { path, bytes },
    }
}

/// The files are all that the version needs, each verified against the record: its immutable files,
/// its journals, its pointer files and the lock.
pub open spec fn is_whole(record: RecordView, landed: Seq<Content>) -> bool {
    let files = record.file_ids.len() as int;
    let journals = record.journals.len() as int;
    let pointers = record.pointers.len() as int;
    &&& landed.len() == files + journals + pointers + 1
    &&& forall|i: int|
        0 <= i < files ==> (#[trigger] landed[i]).path == record.file_ids[i] && intact(
            record.checksums,
            landed[i].path,
            landed[i].bytes,
        )
    &&& forall|i: int|
        files <= i < files + journals ==> (#[trigger] landed[i]).path == record.journals[i - files]
            && intact(record.journal_checksums, landed[i].path, landed[i].bytes)
    &&& landed.subrange(files + journals, files + journals + pointers) == record.pointers
    &&& landed.last() == lock_file()
}

/// How far the restore of a version has come: its first `done` actions were carried out, and wrote
/// the files `landed`.
#[verifier::ext_equal]
pub struct RestoringView {
    pub layout: Layout,
    pub record: RecordView,
    pub done: int,
    pub landed: Seq<Content>,
}

impl RestoringView {
    /// Nothing was done yet.
    pub open spec fn begun(layout: Layout, record: RecordView) -> RestoringView {
        RestoringView { layout, record, done: 0, landed: Seq::empty() }
    }

    /// All that is to be done.
    pub open spec fn actions(self) -> Seq<ActionView> {
        restore_actions(self.layout, self.record)
    }

    /// What is to be done next.
    pub open spec fn action(self) -> ActionView {
        self.actions()[self.done]
    }

    /// The directory that was next is there.
    pub open spec fn made(self) -> RestoringView {
        RestoringView { done: self.done + 1, ..self }
    }

    /// The file that was next is written.
    pub open spec fn with(self, file: Content) -> RestoringView {
        RestoringView { done: self.done + 1, landed: self.landed.push(file), ..self }
    }

    /// What is to be written where this object was fetched for an immutable file. `None`: the object
    /// is corrupted.
    pub open spec fn file_from(self, object: Seq<u8>) -> Option<Content> {
        match self.action() {
            ActionView::FetchFile { path, .. } => if intact(self.record.checksums, path, object) {
                Some(Content { path, bytes: object })
            } else {
                None
            },
            _ => None,
        }
    }

    /// What is to be written where this object was fetched for a journal. `None`: the object is no
    /// compressed journal, or is corrupted.
    pub open spec fn journal_from(self, object: Seq<u8>) -> Option<Content> {
        match (self.action(), gunzip_stream(object)) {
            (ActionView::FetchJournal { path, .. }, Some(bytes)) => if intact(
                self.record.journal_checksums,
                path,
                bytes,
            ) {
                Some(Content { path, bytes })
            } else {
                None
            },
            _ => None,
        }
    }

    /// Every file that landed is what its action may write. The directories come first, and are no
    /// files.
    spec fn on_course(self) -> bool {
        let dirs = self.record.dirs.len() as int;
        &&& 0 <= self.done <= self.actions().len()
        &&& self.landed.len() == if self.done <= dirs {
            0
        } else {
            self.done - dirs
        }
        &&& forall|i: int|
            0 <= i < self.landed.len() ==> fits(
                self.record,
                self.actions()[dirs + i],
                #[trigger] self.landed[i],
            )
    }
}

/// The state of a restore.
struct Restoring {
    record: VersionRecord,
    actions: Vec<Action>,
    done: usize,
    layout: Ghost<Layout>,
    landed: Ghost<Seq<Content>>,
}

impl Restoring {
    spec fn view(self) -> RestoringView {
        RestoringView {
            layout: self.layout@,
            record: self.record@,
            done: self.done as int,
            landed: self.landed@,
        }
    }

    #[verifier::type_invariant]
    spec fn valid(self) -> bool {
        action_views(self.actions@) == self.view().actions() && self.view().on_course()
    }
}

/// What to do next.
pub enum RestoreStep {
    /// Create a directory.
    MakeDir(MakeDir),
    /// Fetch an immutable file.
    FetchFile(FetchFile),
    /// Fetch a journal.
    FetchJournal(FetchJournal),
    /// Write a file.
    Write(WriteFile),
    /// Rename the staging directory to the target.
    Swap(Swap),
}

impl RestoreStep {
    /// The step that follows from where a restore stands.
    pub open spec fn follows(self, view: RestoringView) -> bool {
        match self {
            RestoreStep::MakeDir(s) => {
                view.done < view.actions().len() && s@ == view && view.action() is MakeDir
            },
            RestoreStep::FetchFile(s) => {
                view.done < view.actions().len() && s@ == view && view.action() is FetchFile
            },
            RestoreStep::FetchJournal(s) => {
                view.done < view.actions().len() && s@ == view && view.action() is FetchJournal
            },
            RestoreStep::Write(s) => view.done < view.actions().len() && s@ == view && (
            view.action() matches ActionView::Write { path, bytes } && s.file() == Content {
                path,
                bytes,
            }),
            RestoreStep::Swap(s) => view.done == view.actions().len() && s@ == view,
        }
    }
}

/// The request to create a directory in the staging directory.
pub struct MakeDir {
    now: Restoring,
    path: String,
}

/// The request to fetch an immutable file.
pub struct FetchFile {
    now: Restoring,
    key: String,
    path: String,
}

/// The request to fetch a journal.
pub struct FetchJournal {
    now: Restoring,
    key: String,
    path: String,
}

/// The request to write a file in the staging directory.
pub struct WriteFile {
    now: Restoring,
    path: String,
    bytes: Vec<u8>,
}

/// The request to rename the staging directory to the target.
pub struct Swap {
    now: Restoring,
}

/// A version that was restored: everything that it needs was fetched, verified and written, and the
/// staging directory is in place.
pub struct Restored {
    record: VersionRecord,
    layout: Ghost<Layout>,
    landed: Ghost<Seq<Content>>,
}

/// What a [`Restored`] stands for.
#[verifier::ext_equal]
pub struct RestoredView {
    pub layout: Layout,
    pub record: RecordView,
    pub landed: Seq<Content>,
}

impl View for MakeDir {
    type V = RestoringView;

    closed spec fn view(&self) -> RestoringView {
        self.now.view()
    }
}

impl View for FetchFile {
    type V = RestoringView;

    closed spec fn view(&self) -> RestoringView {
        self.now.view()
    }
}

impl View for FetchJournal {
    type V = RestoringView;

    closed spec fn view(&self) -> RestoringView {
        self.now.view()
    }
}

impl View for WriteFile {
    type V = RestoringView;

    closed spec fn view(&self) -> RestoringView {
        self.now.view()
    }
}

impl View for Swap {
    type V = RestoringView;

    closed spec fn view(&self) -> RestoringView {
        self.now.view()
    }
}

impl View for Restored {
    type V = RestoredView;

    closed spec fn view(&self) -> RestoredView {
        RestoredView { layout: self.layout@, record: self.record@, landed: self.landed@ }
    }
}

/// What to do next.
fn next(now: Restoring) -> (r: RestoreStep)
    ensures
        r.follows(now.view()),
{
    proof {
        use_type_invariant(&now);
        assert(now.view().actions().len() == now.actions.len());
    }
    let at: usize = now.done;
    if at < now.actions.len() {
        assert(action_views(now.actions@)[at as int] == now.view().action());
        match &now.actions[at] {
            Action::MakeDir(path) => {
                let path = path.clone();
                RestoreStep::MakeDir(MakeDir { now, path })
            },
            Action::FetchFile { key, path } => {
                let (key, path) = (key.clone(), path.clone());
                RestoreStep::FetchFile(FetchFile { now, key, path })
            },
            Action::FetchJournal { key, path } => {
                let (key, path) = (key.clone(), path.clone());
                RestoreStep::FetchJournal(FetchJournal { now, key, path })
            },
            Action::Write { path, bytes } => {
                let (path, bytes) = (path.clone(), slice_to_vec(bytes.as_slice()));
                RestoreStep::Write(WriteFile { now, path, bytes })
            },
        }
    } else {
        RestoreStep::Swap(Swap { now })
    }
}

impl MakeDir {
    #[verifier::type_invariant]
    spec fn valid(self) -> bool {
        let view = self.now.view();
        view.done < view.actions().len() && view.action() == ActionView::MakeDir(self.path@)
    }

    /// The directory, relative to the staging directory.
    pub fn path(&self) -> (r: &String)
        ensures
            self@.action() == ActionView::MakeDir(r@),
    {
        proof {
            use_type_invariant(self);
        }
        &self.path
    }

    /// The directory is there.
    pub fn done(self) -> (r: RestoreStep)
        ensures
            r.follows(self@.made()),
    {
        proof {
            use_type_invariant(&self);
            use_type_invariant(&self.now);
        }
        let now = self.now;
        assert(now.view().actions().len() == now.actions.len());
        let done: usize = now.done + 1;
        next(Restoring { done, ..now })
    }
}

impl FetchFile {
    #[verifier::type_invariant]
    spec fn valid(self) -> bool {
        let view = self.now.view();
        view.done < view.actions().len() && view.action() == (ActionView::FetchFile {
            key: self.key@,
            path: self.path@,
        })
    }

    /// The key to fetch from the bucket.
    pub fn key(&self) -> (r: &String)
        ensures
            self@.action() matches ActionView::FetchFile { key, .. } && key == r@,
    {
        proof {
            use_type_invariant(self);
        }
        &self.key
    }

    /// Where the file belongs, relative to the staging directory: its id.
    pub fn path(&self) -> (r: &String)
        ensures
            self@.action() matches ActionView::FetchFile { path, .. } && path == r@,
    {
        proof {
            use_type_invariant(self);
        }
        &self.path
    }

    /// A copy that is already local stands in for the object, if it is what the record says; else
    /// the object is still to be fetched.
    pub fn local(self, copy: Vec<u8>) -> (r: Result<WriteFile, FetchFile>)
        ensures
            self@.action() matches ActionView::FetchFile { path, .. } && match r {
                Ok(write) => intact(self@.record.checksums, path, copy@) && write@ == self@
                    && write.file() == (Content { path, bytes: copy@ }) && self@.file_from(copy@)
                    == Some(write.file()),
                Err(still) => !intact(self@.record.checksums, path, copy@) && still@ == self@
                    && self@.file_from(copy@) is None,
            },
    {
        proof {
            use_type_invariant(&self);
        }
        match file_content(&self.now.record, self.path.as_str(), copy) {
            Ok(bytes) => Ok(WriteFile { now: self.now, path: self.path, bytes }),
            Err(_) => Err(self),
        }
    }

    /// The object that the bucket holds under the key. A corrupted object is refused before it lands.
    pub fn answer(self, object: Vec<u8>) -> (r: Result<WriteFile, Error>)
        ensures
            self@.action() matches ActionView::FetchFile { path, .. } && match r {
                Ok(write) => intact(self@.record.checksums, path, object@) && write@ == self@
                    && write.file() == (Content { path, bytes: object@ }) && self@.file_from(
                    object@,
                ) == Some(write.file()),
                Err(e) => !intact(self@.record.checksums, path, object@) && self@.file_from(
                    object@,
                ) is None && (e matches Error::ChecksumMismatch(p) && p@ == path),
            },
    {
        proof {
            use_type_invariant(&self);
        }
        match file_content(&self.now.record, self.path.as_str(), object) {
            Ok(bytes) => Ok(WriteFile { now: self.now, path: self.path, bytes }),
            Err(e) => Err(e),
        }
    }
}

impl FetchJournal {
    #[verifier::type_invariant]
    spec fn valid(self) -> bool {
        let view = self.now.view();
        view.done < view.actions().len() && view.action() == (ActionView::FetchJournal {
            key: self.key@,
            path: self.path@,
        })
    }

    /// The key to fetch from the bucket.
    pub fn key(&self) -> (r: &String)
        ensures
            self@.action() matches ActionView::FetchJournal { key, .. } && key == r@,
    {
        proof {
            use_type_invariant(self);
        }
        &self.key
    }

    /// Where the journal belongs, relative to the staging directory.
    pub fn path(&self) -> (r: &String)
        ensures
            self@.action() matches ActionView::FetchJournal { path, .. } && path == r@,
    {
        proof {
            use_type_invariant(self);
        }
        &self.path
    }

    /// The compressed object that the bucket holds under the key. A corrupted object is refused
    /// before it lands.
    pub fn answer(self, object: &Vec<u8>) -> (r: Result<WriteFile, Error>)
        ensures
            self@.action() matches ActionView::FetchJournal { path, .. } && match gunzip_stream(
                object@,
            ) {
                Some(journal) => match r {
                    Ok(write) => intact(self@.record.journal_checksums, path, journal) && write@
                        == self@ && write.file() == (Content { path, bytes: journal })
                        && self@.journal_from(object@) == Some(write.file()),
                    Err(e) => !intact(self@.record.journal_checksums, path, journal)
                        && self@.journal_from(object@) is None && (
                    e matches Error::ChecksumMismatch(p) && p@ == path),
                },
                None => self@.journal_from(object@) is None && (r matches Err(
                    Error::Io { path: p, .. },
                ) && p@ == "<gunzip>"@),
            },
    {
        proof {
            use_type_invariant(&self);
        }
        match journal_content(&self.now.record, self.path.as_str(), object) {
            Ok(bytes) => Ok(WriteFile { now: self.now, path: self.path, bytes }),
            Err(e) => Err(e),
        }
    }
}

impl WriteFile {
    #[verifier::type_invariant]
    spec fn valid(self) -> bool {
        let view = self.now.view();
        view.done < view.actions().len() && fits(view.record, view.action(), self.file())
    }

    /// What to write, and where.
    pub closed spec fn file(self) -> Content {
        Content { path: self.path@, bytes: self.bytes@ }
    }

    /// Where to write, relative to the staging directory.
    pub fn path(&self) -> (r: &String)
        ensures
            r@ == self.file().path,
    {
        &self.path
    }

    /// What to write.
    pub fn bytes(&self) -> (r: &Vec<u8>)
        ensures
            r@ == self.file().bytes,
    {
        &self.bytes
    }

    /// The file is written, and durable.
    pub fn done(self) -> (r: RestoreStep)
        ensures
            r.follows(self@.with(self.file())),
    {
        let ghost file = self.file();
        proof {
            use_type_invariant(&self);
            use_type_invariant(&self.now);
        }
        let now = self.now;
        assert(now.view().actions().len() == now.actions.len());
        let done: usize = now.done + 1;
        let ghost after = now.view().with(file);
        assert forall|i: int| 0 <= i < after.landed.len() implies fits(
            after.record,
            after.actions()[after.record.dirs.len() + i],
            #[trigger] after.landed[i],
        ) by {
            if i < now.view().landed.len() {
                assert(after.landed[i] == now.view().landed[i]);
            }
        }
        next(Restoring { done, landed: Ghost(now.landed@.push(file)), ..now })
    }
}

impl Swap {
    #[verifier::type_invariant]
    spec fn valid(self) -> bool {
        self.now.view().done == self.now.view().actions().len()
    }

    /// The staging directory is in place.
    pub fn done(self) -> (r: Restored)
        ensures
            r@.layout == self@.layout,
            r@.record == self@.record,
            r@.landed == self@.landed,
            is_whole(r@.record, r@.landed),
    {
        proof {
            use_type_invariant(&self);
            use_type_invariant(&self.now);
            lemma_on_course_is_whole(self.now.view());
        }
        Restored { record: self.now.record, layout: self.now.layout, landed: self.now.landed }
    }
}

/// When all is done, the version is whole.
proof fn lemma_on_course_is_whole(view: RestoringView)
    requires
        view.on_course(),
        view.done == view.actions().len(),
    ensures
        is_whole(view.record, view.landed),
{
    let record = view.record;
    let landed = view.landed;
    let dirs = record.dirs.len() as int;
    let files = record.file_ids.len() as int;
    let journals = record.journals.len() as int;
    let pointers = record.pointers.len() as int;
    let actions = view.actions();
    assert forall|i: int| 0 <= i < files implies (#[trigger] landed[i]).path == record.file_ids[i]
        && intact(record.checksums, landed[i].path, landed[i].bytes) by {
        assert(actions[dirs + i] == file_actions(view.layout, record)[i]);
    }
    assert forall|i: int| files <= i < files + journals implies (#[trigger] landed[i]).path
        == record.journals[i - files] && intact(
        record.journal_checksums,
        landed[i].path,
        landed[i].bytes,
    ) by {
        assert(actions[dirs + i] == journal_actions(view.layout, record)[i - files]);
    }
    let tail = landed.subrange(files + journals, files + journals + pointers);
    assert forall|i: int| 0 <= i < pointers implies tail[i] == record.pointers[i] by {
        assert(tail[i] == landed[files + journals + i]);
        assert(actions[dirs + (files + journals + i)] == pointer_actions(record)[i]);
    }
    assert(tail =~= record.pointers);
    let last = files + journals + pointers;
    assert(actions[dirs + last] == ActionView::Write { path: "lock"@, bytes: Seq::empty() });
    assert(fits(record, actions[dirs + last], landed[last]));
}

impl Restored {
    #[verifier::type_invariant]
    spec fn valid(self) -> bool {
        is_whole(self.record@, self.landed@)
    }

    /// The record of the version.
    pub fn record(&self) -> (r: &VersionRecord)
        ensures
            r@ == self@.record,
            is_whole(self@.record, self@.landed),
    {
        proof {
            use_type_invariant(self);
        }
        &self.record
    }

    /// The record of the version, for keeps.
    pub fn into_record(self) -> (r: VersionRecord)
        ensures
            r@ == self@.record,
    {
        self.record
    }
}

/// The name of the directory beside the target that the restore is staged in. `file_name` is the
/// final component of the target, `shown` the target as it is shown to people.
pub fn staging_path(file_name: Option<&str>, shown: &str) -> (r: Result<String, Error>)
    ensures
        match r {
            Ok(name) => file_name matches Some(n) && name@ == n@ + STAGING_SUFFIX@,
            Err(e) => file_name is None && (e matches Error::Store(what) && what@
                == "restore target "@ + shown@ + " has no final component"@),
        },
{
    match file_name {
        Some(n) => {
            let mut name = n.to_owned();
            name.append(STAGING_SUFFIX);
            Ok(name)
        },
        None => {
            let mut what = "restore target ".to_owned();
            what.append(shown);
            what.append(" has no final component");
            Err(Error::Store(what))
        },
    }
}

/// Begin the restore of `record` to a target directory. `occupied` says whether the target holds
/// anything: it is never clobbered, since mixing two restores would make neither database.
pub fn restore_to(
    layout: &Layout,
    record: VersionRecord,
    occupied: bool,
    file_name: Option<&str>,
    shown: &str,
) -> (r: Result<RestorePlan, Error>)
    ensures
        match r {
            Ok(plan) => {
                &&& !occupied
                &&& file_name matches Some(n) && plan.staging@ == n@ + STAGING_SUFFIX@
                &&& plan.first.follows(RestoringView::begun(*layout, record@))
            },
            Err(Error::Store(what)) => if occupied {
                what@ == "restore target "@ + shown@ + " is not empty"@
            } else {
                file_name is None && what@ == "restore target "@ + shown@
                    + " has no final component"@
            },
            Err(_) => false,
        },
{
    if occupied {
        let mut what = "restore target ".to_owned();
        what.append(shown);
        what.append(" is not empty");
        return Err(Error::Store(what));
    }
    let staging = match staging_path(file_name, shown) {
        Ok(staging) => staging,
        Err(e) => {
            return Err(e);
        },
    };
    let mut actions: Vec<Action> = Vec::new();
    plan_dirs(&record, &mut actions);
    plan_files(layout, &record, &mut actions);
    plan_journals(layout, &record, &mut actions);
    plan_pointers(&record, &mut actions);
    let ghost before = action_views(actions@);
    actions.push(Action::Write { path: "lock".to_owned(), bytes: Vec::new() });
    assert(action_views(actions@) =~= before + seq![
        ActionView::Write { path: "lock"@, bytes: Seq::empty() },
    ]);
    assert(action_views(actions@) =~= restore_actions(*layout, record@));
    let now = Restoring {
        record,
        actions,
        done: 0,
        layout: Ghost(*layout),
        landed: Ghost(Seq::empty()),
    };
    Ok(RestorePlan { staging, first: next(now) })
}

fn plan_dirs(record: &VersionRecord, actions: &mut Vec<Action>)
    ensures
        action_views(final(actions)@) == action_views(old(actions)@) + dir_actions(record@),
{
    let ghost before = action_views(actions@);
    let ghost all = dir_actions(record@);
    let mut i: usize = 0;
    assert(before + all.take(0) =~= before);
    while i < record.dirs.len()
        invariant
            i <= record.dirs.len(),
            all == dir_actions(record@),
            action_views(actions@) == before + all.take(i as int),
        decreases record.dirs.len() - i,
    {
        let ghost now = action_views(actions@);
        actions.push(Action::MakeDir(record.dirs[i].clone()));
        assert(action_views(actions@) =~= now.push(all[i as int]));
        assert(action_views(actions@) =~= before + all.take(i + 1));
        i += 1;
    }
    assert(all.take(i as int) =~= all);
}

fn plan_files(layout: &Layout, record: &VersionRecord, actions: &mut Vec<Action>)
    ensures
        action_views(final(actions)@) == action_views(old(actions)@) + file_actions(
            *layout,
            record@,
        ),
{
    let ghost before = action_views(actions@);
    let ghost all = file_actions(*layout, record@);
    let mut i: usize = 0;
    assert(before + all.take(0) =~= before);
    while i < record.file_ids.len()
        invariant
            i <= record.file_ids.len(),
            all == file_actions(*layout, record@),
            action_views(actions@) == before + all.take(i as int),
        decreases record.file_ids.len() - i,
    {
        let ghost now = action_views(actions@);
        let id: &FileId = &record.file_ids[i];
        actions.push(Action::FetchFile { key: layout.file(id), path: id.0.clone() });
        assert(action_views(actions@) =~= now.push(all[i as int]));
        assert(action_views(actions@) =~= before + all.take(i + 1));
        i += 1;
    }
    assert(all.take(i as int) =~= all);
}

fn plan_journals(layout: &Layout, record: &VersionRecord, actions: &mut Vec<Action>)
    ensures
        action_views(final(actions)@) == action_views(old(actions)@) + journal_actions(
            *layout,
            record@,
        ),
{
    let ghost before = action_views(actions@);
    let ghost all = journal_actions(*layout, record@);
    let mut i: usize = 0;
    assert(before + all.take(0) =~= before);
    while i < record.journals.len()
        invariant
            i <= record.journals.len(),
            all == journal_actions(*layout, record@),
            action_views(actions@) == before + all.take(i as int),
        decreases record.journals.len() - i,
    {
        let ghost now = action_views(actions@);
        let name: &String = &record.journals[i];
        actions.push(
            Action::FetchJournal {
                key: layout.journal(record.seqno, name.as_str()),
                path: name.clone(),
            },
        );
        assert(action_views(actions@) =~= now.push(all[i as int]));
        assert(action_views(actions@) =~= before + all.take(i + 1));
        i += 1;
    }
    assert(all.take(i as int) =~= all);
}

fn plan_pointers(record: &VersionRecord, actions: &mut Vec<Action>)
    ensures
        action_views(final(actions)@) == action_views(old(actions)@) + pointer_actions(record@),
{
    let ghost before = action_views(actions@);
    let ghost all = pointer_actions(record@);
    let mut i: usize = 0;
    assert(before + all.take(0) =~= before);
    while i < record.pointers.len()
        invariant
            i <= record.pointers.len(),
            all == pointer_actions(record@),
            action_views(actions@) == before + all.take(i as int),
        decreases record.pointers.len() - i,
    {
        let ghost now = action_views(actions@);
        actions.push(
            Action::Write {
                path: record.pointers[i].path.clone(),
                bytes: slice_to_vec(record.pointers[i].bytes.as_slice()),
            },
        );
        assert(action_views(actions@) =~= now.push(all[i as int]));
        assert(action_views(actions@) =~= before + all.take(i + 1));
        i += 1;
    }
    assert(all.take(i as int) =~= all);
}

/// What to write at the path of an immutable file, given the object that the store holds for it.
/// A corrupted object is refused before it lands.
pub fn file_content(record: &VersionRecord, path: &str, object: Vec<u8>) -> (r: Result<
    Vec<u8>,
    Error,
>)
    ensures
        match r {
            Ok(bytes) => intact(record@.checksums, path@, object@) && bytes@ == object@,
            Err(e) => !intact(record@.checksums, path@, object@) && (
            e matches Error::ChecksumMismatch(p) && p@ == path@),
        },
{
    verified(&record.checksums, path, object)
}

/// What to write at the path of a journal, given the compressed object that the store holds for
/// it. A corrupted object is refused before it lands.
pub fn journal_content(record: &VersionRecord, path: &str, object: &Vec<u8>) -> (r: Result<
    Vec<u8>,
    Error,
>)
    ensures
        match gunzip_stream(object@) {
            Some(journal) => match r {
                Ok(bytes) => intact(record@.journal_checksums, path@, journal) && bytes@ == journal,
                Err(e) => !intact(record@.journal_checksums, path@, journal) && (
                e matches Error::ChecksumMismatch(p) && p@ == path@),
            },
            None => r matches Err(Error::Io { path: p, .. }) && p@ == "<gunzip>"@,
        },
{
    match gunzip(object.as_slice()) {
        Ok(journal) => verified(&record.journal_checksums, path, journal),
        Err(e) => Err(e),
    }
}

} // verus!
