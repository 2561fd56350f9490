//! Bucket key layout. Centralizes the object-store key scheme so the writer, reader, and pruner
//! all agree on where things live.
//!
//! ```text
//! <db>/generations/<gen>/
//!     files/<relpath>            immutable files (SSTs, blobs, manifests), keyed by db-relative path
//!     journals/<seqno>/<name>    per-version journal files (mutable, not content-addressed)
//!     versions/<seqno>.json      version records (each self-contained: a full file set)
//!     snapshots/<seqno>.json     copies of the version records that are full re-base points
//! ```

use vstd::prelude::*;
use vstd::string::*;
use crate::decimal::{parse_u64, push_decimal};
use crate::text::{after_last, ends_with, to_chars};
use crate::types::{FileId, Generation};

verus! {

pub struct Layout {
    pub db: String,
    pub generation: Generation,
}

/// The twenty digits by which keys name a sequence number.
pub open spec fn seqno_text(seqno: u64) -> Seq<char> {
    crate::decimal::decimal(seqno as nat, 20)
}

/// The sequence number that a `versions/<seqno>.json` key names, read as `str::parse` reads a `u64`. A
/// key whose last directory is not `versions`, or whose name is not a number and `.json`, names none.
pub open spec fn version_key_seqno(key: Seq<char>) -> Option<u64> {
    let name = after_last(key, '/');
    let dir = key.take(key.len() - name.len());
    if (dir == "versions/"@ || ends_with(dir, "/versions/"@)) && ends_with(name, ".json"@) {
        crate::decimal::u64_of_text(name.take(name.len() - ".json"@.len()))
    } else {
        None
    }
}

/// Whether the first `n` characters end in `suffix`.
fn ends_at(chars: &Vec<char>, n: usize, suffix: &str) -> (r: bool)
    requires
        n <= chars.len(),
    ensures
        r == ends_with(chars@.take(n as int), suffix@),
{
    let ghost head = chars@.take(n as int);
    let tail = to_chars(suffix);
    let m: usize = tail.len();
    if n < m {
        return false;
    }
    let ghost end = head.skip(n - m);
    let mut i: usize = 0;
    while i < m
        invariant
            i <= m <= n <= chars.len(),
            m == tail.len(),
            tail@ == suffix@,
            head == chars@.take(n as int),
            end == head.skip(n - m),
            forall|j: int| 0 <= j < i ==> end[j] == tail@[j],
        decreases m - i,
    {
        assert(end[i as int] == chars@[n - m + i]);
        if chars[n - m + i] != tail[i] {
            assert(suffix@[i as int] == tail@[i as int]);
            return false;
        }
        i += 1;
    }
    assert(end =~= suffix@);
    true
}

impl Layout {
    pub open spec fn base_key(self) -> Seq<char> {
        self.db@ + "/generations/"@ + self.generation.0@
    }

    pub open spec fn file_key(self, id: Seq<char>) -> Seq<char> {
        self.base_key() + "/files/"@ + id
    }

    pub open spec fn version_key(self, seqno: u64) -> Seq<char> {
        self.base_key() + "/versions/"@ + seqno_text(seqno) + ".json"@
    }

    pub open spec fn snapshot_key(self, seqno: u64) -> Seq<char> {
        self.base_key() + "/snapshots/"@ + seqno_text(seqno) + ".json"@
    }

    pub open spec fn journal_dir_key(self, seqno: u64) -> Seq<char> {
        self.base_key() + "/journals/"@ + seqno_text(seqno)
    }

    pub open spec fn journal_key(self, seqno: u64, name: Seq<char>) -> Seq<char> {
        self.journal_dir_key(seqno) + "/"@ + name
    }

    pub fn new(db: &str, generation: Generation) -> (r: Self)
        ensures
            r.db@ == db@,
            r.generation == generation,
    {
        Layout { db: db.to_owned(), generation }
    }

    /// The key under which everything of this generation lives.
    pub fn base(&self) -> (r: String)
        ensures
            r@ == self.base_key(),
    {
        let mut out = self.db.clone();
        out.append("/generations/");
        out.append(self.generation.0.as_str());
        out
    }

    /// The key of an immutable file.
    pub fn file(&self, id: &FileId) -> (r: String)
        ensures
            r@ == self.file_key(id.0@),
    {
        let mut out = self.base();
        out.append("/files/");
        out.append(id.0.as_str());
        out
    }

    /// The prefix under which the immutable files live.
    pub fn files_prefix(&self) -> (r: String)
        ensures
            r@ == self.base_key() + "/files"@,
    {
        let mut out = self.base();
        out.append("/files");
        out
    }

    /// The key of a version record, zero-padded so that lexical list order matches numeric order.
    pub fn version(&self, seqno: u64) -> (r: String)
        ensures
            r@ == self.version_key(seqno),
    {
        let mut out = self.base();
        out.append("/versions/");
        push_decimal(&mut out, seqno, 20);
        out.append(".json");
        out
    }

    /// The prefix under which the version records live.
    pub fn versions_prefix(&self) -> (r: String)
        ensures
            r@ == self.base_key() + "/versions"@,
    {
        let mut out = self.base();
        out.append("/versions");
        out
    }

    /// The key of the copy of a version record that is a full re-base point.
    pub fn snapshot(&self, seqno: u64) -> (r: String)
        ensures
            r@ == self.snapshot_key(seqno),
    {
        let mut out = self.base();
        out.append("/snapshots/");
        push_decimal(&mut out, seqno, 20);
        out.append(".json");
        out
    }

    /// A journal file for one version. Journals are mutable (rewritten in place), so they are
    /// keyed per version rather than content-addressed: each capture ships its own copy.
    pub fn journal(&self, seqno: u64, name: &str) -> (r: String)
        ensures
            r@ == self.journal_key(seqno, name@),
    {
        let mut out = self.journals_prefix(seqno);
        out.append("/");
        out.append(name);
        out
    }

    /// The prefix under which a version's journals live, for pruning.
    pub fn journals_prefix(&self, seqno: u64) -> (r: String)
        ensures
            r@ == self.journal_dir_key(seqno),
    {
        let mut out = self.base();
        out.append("/journals/");
        push_decimal(&mut out, seqno, 20);
        out
    }

    /// Parse a `versions/<seqno>.json` key back to its seqno. Returns `None` if the key isn't a
    /// version record.
    pub fn seqno_from_version_key(key: &str) -> (r: Option<u64>)
        ensures
            r == version_key_seqno(key@),
    {
        let chars = to_chars(key);
        let n: usize = chars.len();
        let mut start: usize = n;
        assert(key@.take(n as int) =~= key@);
        assert(key@.subrange(n as int, n as int) =~= Seq::empty());
        assert(after_last(key@, '/') =~= after_last(key@.take(n as int), '/')
            + key@.subrange(n as int, n as int));
        while start > 0 && chars[start - 1] != '/'
            invariant
                chars@ == key@,
                n == chars.len(),
                start <= n,
                after_last(key@, '/') == after_last(
                    key@.take(start as int),
                    '/',
                ) + key@.subrange(start as int, n as int),
            decreases start,
        {
            proof {
                let head = key@.take(start as int);
                let tail = key@.subrange(start as int, n as int);
                assert(head.drop_last() =~= key@.take(start - 1));
                assert(key@.subrange(start - 1, n as int) =~= seq![head.last()] + tail);
                assert(after_last(head.drop_last(), '/').push(head.last()) + tail
                    =~= after_last(head.drop_last(), '/') + (seq![head.last()] + tail));
            }
            start -= 1;
        }
        let ghost name = key@.subrange(start as int, n as int);
        assert(after_last(key@, '/') =~= name);
        let ghost dir = key@.take(key@.len() - name.len());
        proof {
            reveal_strlit(".json");
            reveal_strlit("versions/");
            assert(dir =~= chars@.take(start as int));
            assert(chars@.take(n as int) =~= key@);
            if dir.len() == 9 {
                assert(dir.skip(0) =~= dir);
            }
        }
        if !(start == 9 && ends_at(&chars, start, "versions/")) && !ends_at(&chars, start, "/versions/") {
            return None;
        }
        if n - start < 5 {
            return None;
        }
        let stem: usize = n - 5;
        assert(name.skip(name.len() - 5) =~= key@.skip(key@.len() - 5));
        if ends_at(&chars, n, ".json") {
            assert(name.take(name.len() - 5) =~= key@.subrange(start as int, stem as int));
            parse_u64(&chars, start, stem)
        } else {
            None
        }
    }
}

} // verus!
