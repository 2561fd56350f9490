//! The listing of a filesystem-backed object store: a descent through the directories below a
//! prefix.
//!
//! It is a conversation: each step names a directory to read; the caller hands in its entries, which
//! may be directories to read in turn. The keys come when no directory is left.

use vstd::prelude::*;
use vstd::string::*;
use crate::local_store::{keys_of_paths, LocalObjectStore};
use crate::order::sorted_texts;
use crate::text::texts;

verus! {

/// How far a listing has come. All paths are relative to the root of the store.
#[verifier::ext_equal]
pub struct ListView {
    /// The directories that were handed out to be read, in order.
    pub handed: Seq<Seq<char>>,
    /// The directories that are still to be read. The last one is next.
    pub pending: Seq<Seq<char>>,
    /// The files that were found.
    pub files: Seq<Seq<char>>,
}

impl ListView {
    /// A listing of what lies below `prefix`.
    pub open spec fn begun(prefix: Seq<char>) -> ListView {
        ListView { handed: Seq::empty(), pending: seq![prefix], files: Seq::empty() }
    }

    /// The listing when the next directory is handed out.
    pub open spec fn handing(self) -> ListView {
        ListView {
            handed: self.handed.push(self.pending.last()),
            pending: self.pending.drop_last(),
            ..self
        }
    }

    /// The listing with one more entry of the directory that was handed out.
    pub open spec fn entered(self, rel: Seq<char>, is_dir: bool) -> ListView {
        if is_dir {
            ListView { pending: self.pending.push(rel), ..self }
        } else {
            ListView { files: self.files.push(rel), ..self }
        }
    }
}

/// What to do next.
pub enum ListStep {
    /// Read a directory.
    ReadDir(ReadDir),
    /// These are the keys.
    Done(Vec<String>),
}

impl ListStep {
    /// The step that follows from where a listing stands: the next directory, if one is left; else
    /// the sorted keys of the objects among all files that were found.
    pub open spec fn follows(self, view: ListView) -> bool {
        match self {
            ListStep::ReadDir(s) => view.pending.len() > 0 && s@ == view.handing(),
            ListStep::Done(keys) => {
                &&& view.pending.len() == 0
                &&& sorted_texts(texts(keys@))
                &&& texts(keys@).to_multiset() == keys_of_paths(view.files).to_multiset()
            },
        }
    }
}

/// The request to read a directory.
pub struct ReadDir {
    dir: String,
    pending: Vec<String>,
    files: Vec<String>,
    handed: Ghost<Seq<Seq<char>>>,
}

impl View for ReadDir {
    type V = ListView;

    closed spec fn view(&self) -> ListView {
        ListView {
            handed: self.handed@,
            pending: texts(self.pending@),
            files: texts(self.files@),
        }
    }
}

/// The next directory, or the keys.
fn next(pending: Vec<String>, files: Vec<String>, handed: Ghost<Seq<Seq<char>>>) -> (r: ListStep)
    ensures
        r.follows(
            ListView { handed: handed@, pending: texts(pending@), files: texts(files@) },
        ),
{
    let mut pending: Vec<String> = pending;
    let ghost before = texts(pending@);
    match pending.pop() {
        Some(dir) => {
            assert(texts(pending@) =~= before.drop_last());
            assert(before.last() == dir@);
            ListStep::ReadDir(ReadDir { dir, pending, files, handed: Ghost(handed@.push(dir@)) })
        },
        None => ListStep::Done(LocalObjectStore::keys_for(&files)),
    }
}

impl ReadDir {
    #[verifier::type_invariant]
    spec fn valid(self) -> bool {
        self.handed@.len() > 0 && self.handed@.last() == self.dir@
    }

    /// The directory, relative to the root of the store.
    pub fn dir(&self) -> (r: &String)
        ensures
            self@.handed.len() > 0,
            r@ == self@.handed.last(),
    {
        proof {
            use_type_invariant(self);
        }
        &self.dir
    }

    /// Take in an entry of the directory, by its path relative to the root of the store. A directory
    /// is read in turn.
    pub fn entry(&mut self, rel: &str, is_dir: bool)
        ensures
            final(self)@ == old(self)@.entered(rel@, is_dir),
    {
        proof {
            use_type_invariant(&*self);
        }
        if is_dir {
            let ghost before = texts(self.pending@);
            let mut pending: Vec<String> = Vec::new();
            std::mem::swap(&mut pending, &mut self.pending);
            pending.push(rel.to_owned());
            assert(texts(pending@) =~= before.push(rel@));
            self.pending = pending;
        } else {
            let ghost before = texts(self.files@);
            let mut files: Vec<String> = Vec::new();
            std::mem::swap(&mut files, &mut self.files);
            files.push(rel.to_owned());
            assert(texts(files@) =~= before.push(rel@));
            self.files = files;
        }
    }

    /// All entries of the directory were taken in; a directory that is gone has none.
    pub fn done(self) -> (r: ListStep)
        ensures
            r.follows(self@),
    {
        next(self.pending, self.files, self.handed)
    }
}

impl LocalObjectStore {
    /// Begin to list every key under `prefix`.
    pub fn list(&self, prefix: &str) -> (r: ListStep)
        ensures
            r.follows(ListView::begun(prefix@)),
            r is ReadDir,
    {
        let mut pending: Vec<String> = Vec::new();
        pending.push(prefix.to_owned());
        let files: Vec<String> = Vec::new();
        assert(texts(pending@) =~= seq![prefix@]);
        assert(texts(files@) =~= Seq::empty());
        next(pending, files, Ghost(Seq::empty()))
    }
}

} // verus!
