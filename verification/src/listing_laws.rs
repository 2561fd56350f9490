//! Laws of the listing of a filesystem-backed store: the descent comes upon every file below the
//! prefix, once.

use vstd::prelude::*;
use vstd::string::*;
use crate::lists::lemma_push_contains;
use crate::listing::ListView;
use crate::local_store::{
    is_temporary, keys_are_paths, keys_of_paths, law_both_stores_list_alike, on_disk,
};
use crate::object_store::{lists, Objects};
use crate::order::sorted_texts;
use crate::text::starts_with;

verus! {

/// One entry of a directory, by its path relative to the root.
pub struct DirEntry {
    pub rel: Seq<char>,
    pub is_dir: bool,
}

/// The entries of each directory.
pub type Disk = spec_fn(Seq<char>) -> Seq<DirEntry>;

/// How the paths inside a directory begin. The root is the empty path.
pub open spec fn inside(dir: Seq<char>) -> Seq<char> {
    if dir.len() == 0 {
        dir
    } else {
        dir + "/"@
    }
}

/// The path is that of an entry directly in this directory.
pub open spec fn directly_in(dir: Seq<char>, rel: Seq<char>) -> bool {
    starts_with(rel, inside(dir)) && rel.len() > inside(dir).len() && !rel.skip(
        inside(dir).len() as int,
    ).contains('/')
}

/// A file lies below this directory, at any depth.
pub open spec fn below(files: Set<Seq<char>>, dir: Seq<char>) -> bool {
    exists|file: Seq<char>| #[trigger] files.contains(file) && starts_with(file, inside(dir))
}

/// The disk holds these files, and the directories that lead to them: each directory has an entry
/// for each file directly in it and for each directory directly in it that a file lies below.
pub open spec fn holds(disk: Disk, files: Set<Seq<char>>) -> bool {
    forall|dir: Seq<char>| #[trigger] dir_holds(disk(dir), files, dir)
}

/// These are the entries of the directory.
pub open spec fn dir_holds(entries: Seq<DirEntry>, files: Set<Seq<char>>, dir: Seq<char>) -> bool {
    &&& forall|i: int, j: int|
        0 <= i < j < entries.len() ==> (#[trigger] entries[i]).rel != (#[trigger] entries[j]).rel
    &&& forall|rel: Seq<char>| #[trigger]
        has_entry(entries, rel, false) <==> directly_in(dir, rel) && files.contains(rel)
    &&& forall|rel: Seq<char>| #[trigger]
        has_entry(entries, rel, true) <==> directly_in(dir, rel) && below(files, rel)
}

/// Whether there is such an entry.
pub open spec fn has_entry(entries: Seq<DirEntry>, rel: Seq<char>, is_dir: bool) -> bool {
    exists|i: int|
        0 <= i < entries.len() && (#[trigger] entries[i]).rel == rel && entries[i].is_dir == is_dir
}

/// The listing when these entries were taken in.
pub open spec fn all_entered(view: ListView, entries: Seq<DirEntry>) -> ListView
    decreases entries.len(),
{
    if entries.len() == 0 {
        view
    } else {
        all_entered(view, entries.drop_last()).entered(
            entries.last().rel,
            entries.last().is_dir,
        )
    }
}

/// The listing after `n` directories were read. One that has no directory left stays.
pub open spec fn descended(prefix: Seq<char>, disk: Disk, n: nat) -> ListView
    decreases n,
{
    if n == 0 {
        ListView::begun(prefix)
    } else {
        let view = descended(prefix, disk, (n - 1) as nat);
        if view.pending.len() == 0 {
            view
        } else {
            all_entered(view.handing(), disk(view.pending.last()))
        }
    }
}

/// The path is relative, and every component of it has a name.
pub open spec fn is_normal(path: Seq<char>) -> bool {
    &&& path.len() > 0 && path[0] != '/'
    &&& forall|i: int|
        0 <= i < path.len() && #[trigger] path[i] == '/' ==> i + 1 < path.len() && path[i + 1]
            != '/'
}

/// The directory or the prefix itself lies in reach of the listing.
spec fn in_reach(prefix: Seq<char>, dir: Seq<char>) -> bool {
    dir == prefix || starts_with(dir, inside(prefix))
}

spec fn dirs_of(entries: Seq<DirEntry>) -> Seq<Seq<char>>
    decreases entries.len(),
{
    if entries.len() == 0 {
        Seq::empty()
    } else if entries.last().is_dir {
        dirs_of(entries.drop_last()).push(entries.last().rel)
    } else {
        dirs_of(entries.drop_last())
    }
}

spec fn files_of(entries: Seq<DirEntry>) -> Seq<Seq<char>>
    decreases entries.len(),
{
    if entries.len() == 0 {
        Seq::empty()
    } else if entries.last().is_dir {
        files_of(entries.drop_last())
    } else {
        files_of(entries.drop_last()).push(entries.last().rel)
    }
}

proof fn lemma_all_entered(view: ListView, entries: Seq<DirEntry>)
    ensures
        all_entered(view, entries) == (ListView {
            handed: view.handed,
            pending: view.pending + dirs_of(entries),
            files: view.files + files_of(entries),
        }),
    decreases entries.len(),
{
    if entries.len() > 0 {
        lemma_all_entered(view, entries.drop_last());
    }
    assert(all_entered(view, entries) =~= (ListView {
        handed: view.handed,
        pending: view.pending + dirs_of(entries),
        files: view.files + files_of(entries),
    }));
}

/// What was entered is what the entries are, each once.
proof fn lemma_parts_of(entries: Seq<DirEntry>)
    requires
        forall|i: int, j: int|
            0 <= i < j < entries.len() ==> (#[trigger] entries[i]).rel != (
            #[trigger] entries[j]).rel,
    ensures
        dirs_of(entries).no_duplicates(),
        files_of(entries).no_duplicates(),
        forall|rel: Seq<char>| #[trigger]
            dirs_of(entries).contains(rel) <==> has_entry(entries, rel, true),
        forall|rel: Seq<char>| #[trigger]
            files_of(entries).contains(rel) <==> has_entry(entries, rel, false),
    decreases entries.len(),
{
    if entries.len() > 0 {
        let rest = entries.drop_last();
        let last = entries.last();
        assert forall|i: int, j: int| 0 <= i < j < rest.len() implies (#[trigger] rest[i]).rel != (
        #[trigger] rest[j]).rel by {
            assert(rest[i] == entries[i] && rest[j] == entries[j]);
        }
        lemma_parts_of(rest);
        assert forall|rel: Seq<char>, is_dir: bool|
            #![trigger has_entry(entries, rel, is_dir)]
            has_entry(entries, rel, is_dir) <==> has_entry(rest, rel, is_dir) || (rel == last.rel
                && is_dir == last.is_dir) by {
            if has_entry(rest, rel, is_dir) {
                let i = choose|i: int|
                    0 <= i < rest.len() && (#[trigger] rest[i]).rel == rel && rest[i].is_dir
                        == is_dir;
                assert(entries[i].rel == rel);
            }
            if has_entry(entries, rel, is_dir) {
                let i = choose|i: int|
                    0 <= i < entries.len() && (#[trigger] entries[i]).rel == rel
                        && entries[i].is_dir == is_dir;
                if i < rest.len() {
                    assert(rest[i].rel == rel);
                }
            }
            assert(entries[entries.len() - 1] == last);
        }
        assert(!has_entry(rest, last.rel, last.is_dir)) by {
            if has_entry(rest, last.rel, last.is_dir) {
                let i = choose|i: int|
                    0 <= i < rest.len() && (#[trigger] rest[i]).rel == last.rel && rest[i].is_dir
                        == last.is_dir;
                assert(entries[i].rel != entries[entries.len() - 1].rel);
            }
        }
        let dirs = dirs_of(rest);
        let files = files_of(rest);
        assert forall|rel: Seq<char>| #[trigger]
            dirs_of(entries).contains(rel) <==> has_entry(entries, rel, true) by {
            lemma_push_contains(dirs, last.rel, rel);
            assert(dirs.contains(rel) <==> has_entry(rest, rel, true));
        }
        assert forall|rel: Seq<char>| #[trigger]
            files_of(entries).contains(rel) <==> has_entry(entries, rel, false) by {
            lemma_push_contains(files, last.rel, rel);
            assert(files.contains(rel) <==> has_entry(rest, rel, false));
        }
        if last.is_dir {
            lemma_push_distinct(dirs, last.rel);
        } else {
            lemma_push_distinct(files, last.rel);
        }
    }
}

proof fn lemma_push_distinct(s: Seq<Seq<char>>, x: Seq<char>)
    requires
        s.no_duplicates(),
        !s.contains(x),
    ensures
        s.push(x).no_duplicates(),
{
    assert forall|i: int, j: int|
        0 <= i < s.push(x).len() && 0 <= j < s.push(x).len() && i != j implies s.push(x)[i]
        != s.push(x)[j] by {
        if i < s.len() {
            assert(s.contains(s[i]));
        }
        if j < s.len() {
            assert(s.contains(s[j]));
        }
    }
}

proof fn lemma_concat(a: Seq<Seq<char>>, b: Seq<Seq<char>>)
    ensures
        forall|x: Seq<char>| #[trigger] (a + b).contains(x) <==> a.contains(x) || b.contains(x),
        a.no_duplicates() && b.no_duplicates() && (forall|x: Seq<char>| #[trigger]
            b.contains(x) ==> !a.contains(x)) ==> (a + b).no_duplicates(),
{
    assert forall|x: Seq<char>| #[trigger] (a + b).contains(x) <==> a.contains(x) || b.contains(x) by {
        if (a + b).contains(x) {
            let i = (a + b).index_of(x);
            if i < a.len() {
                assert(a[i] == x);
            } else {
                assert(b[i - a.len()] == x);
            }
        }
        if a.contains(x) {
            let i = a.index_of(x);
            assert((a + b)[i] == x);
        }
        if b.contains(x) {
            let i = b.index_of(x);
            assert((a + b)[a.len() + i] == x);
        }
    }
    if a.no_duplicates() && b.no_duplicates() && (forall|x: Seq<char>| #[trigger]
        b.contains(x) ==> !a.contains(x)) {
        assert forall|i: int, j: int|
            0 <= i < (a + b).len() && 0 <= j < (a + b).len() && i != j implies (a + b)[i] != (a
            + b)[j] by {
            if i < a.len() {
                assert(a.contains((a + b)[i]));
            } else {
                assert(b.contains(b[i - a.len()]));
            }
            if j < a.len() {
                assert(a.contains((a + b)[j]));
            } else {
                assert(b.contains(b[j - a.len()]));
            }
        }
    }
}

/// A path is directly in one directory.
proof fn lemma_one_parent(a: Seq<char>, b: Seq<char>, rel: Seq<char>)
    requires
        directly_in(a, rel),
        directly_in(b, rel),
    ensures
        a == b,
{
    reveal_strlit("/");
    let (x, y) = (inside(a).len() as int, inside(b).len() as int);
    assert(x > 0 ==> rel.take(x)[x - 1] == '/' && a =~= rel.take(x).take(x - 1));
    assert(y > 0 ==> rel.take(y)[y - 1] == '/' && b =~= rel.take(y).take(y - 1));
    if x < y {
        assert(rel.skip(x)[y - 1 - x] == '/');
        assert(rel.skip(x).contains('/'));
    } else if y < x {
        assert(rel.skip(y)[x - 1 - y] == '/');
        assert(rel.skip(y).contains('/'));
    }
}

/// What is directly in a directory in reach is below the prefix.
proof fn lemma_reach_grows(prefix: Seq<char>, dir: Seq<char>, rel: Seq<char>)
    requires
        in_reach(prefix, dir),
        directly_in(dir, rel),
    ensures
        starts_with(rel, inside(prefix)),
        rel.len() > prefix.len(),
        rel.len() > dir.len(),
{
    reveal_strlit("/");
    if dir != prefix {
        let n = inside(prefix).len() as int;
        assert(inside(dir).take(n) =~= dir.take(n));
        assert(rel.take(n) =~= rel.take(inside(dir).len() as int).take(n));
    }
}

/// The last slash of a path that has one.
proof fn lemma_last_slash(s: Seq<char>, k: int) -> (j: int)
    requires
        0 <= k < s.len(),
        s[k] == '/',
    ensures
        k <= j < s.len(),
        s[j] == '/',
        !s.skip(j + 1).contains('/'),
    decreases s.len() - k,
{
    if s.skip(k + 1).contains('/') {
        let m = s.skip(k + 1).index_of('/');
        assert(s[k + 1 + m] == '/');
        lemma_last_slash(s, k + 1 + m)
    } else {
        k
    }
}

/// The directory that a path below the prefix is directly in, which is in reach.
proof fn lemma_parent(prefix: Seq<char>, rel: Seq<char>) -> (dir: Seq<char>)
    requires
        starts_with(rel, inside(prefix)),
        rel.len() > 0,
        rel[0] != '/',
        rel.last() != '/',
    ensures
        directly_in(dir, rel),
        in_reach(prefix, dir),
        dir.len() < rel.len(),
{
    reveal_strlit("/");
    let n = prefix.len() as int;
    if n == 0 && !rel.contains('/') {
        assert(rel.skip(0) =~= rel);
        assert(rel.take(0) =~= prefix);
        prefix
    } else {
        assert(n > 0 ==> rel.take(n + 1)[n] == '/');
        let k = if n == 0 {
            rel.index_of('/')
        } else {
            n
        };
        let j = lemma_last_slash(rel, k);
        let dir = rel.take(j);
        assert(rel.take(j + 1) =~= dir + "/"@);
        if n == 0 {
            assert(dir.take(0) =~= prefix);
        } else if j == n {
            assert(dir =~= rel.take(n + 1).take(n));
            assert(inside(prefix).take(n) =~= prefix);
        } else {
            assert(dir.take(n + 1) =~= rel.take(n + 1));
        }
        dir
    }
}

/// What holds of a listing at every moment.
spec fn on_course(prefix: Seq<char>, disk: Disk, files: Set<Seq<char>>, view: ListView) -> bool {
    &&& view.handed.no_duplicates()
    &&& view.pending.no_duplicates()
    &&& view.files.no_duplicates()
    &&& view.handed.contains(prefix) || view.pending.contains(prefix)
    &&& forall|d: Seq<char>| #[trigger]
        view.pending.contains(d) ==> !view.handed.contains(d) && in_reach(prefix, d) && (d == prefix
            || (has_parent(view.handed, d) && below(files, d)))
    &&& forall|d: Seq<char>| #[trigger]
        view.handed.contains(d) ==> in_reach(prefix, d) && (d == prefix || (has_parent(
            view.handed,
            d,
        ) && below(files, d))) && read(disk(d), view)
    &&& forall|f: Seq<char>| #[trigger]
        view.files.contains(f) ==> files.contains(f) && has_parent(view.handed, f)
}

/// The path is directly in one of the directories.
#[verifier::opaque]
spec fn has_parent(dirs: Seq<Seq<char>>, rel: Seq<char>) -> bool {
    exists|d: Seq<char>| #[trigger] dirs.contains(d) && directly_in(d, rel)
}

proof fn lemma_has_parent(dirs: Seq<Seq<char>>, dir: Seq<char>, rel: Seq<char>)
    requires
        dirs.contains(dir),
        directly_in(dir, rel),
    ensures
        has_parent(dirs, rel),
{
    reveal(has_parent);
}

proof fn lemma_parent_among(dirs: Seq<Seq<char>>, rel: Seq<char>) -> (dir: Seq<char>)
    requires
        has_parent(dirs, rel),
    ensures
        dirs.contains(dir),
        directly_in(dir, rel),
{
    reveal(has_parent);
    choose|d: Seq<char>| #[trigger] dirs.contains(d) && directly_in(d, rel)
}

/// The entries of the directory were taken in.
spec fn read(entries: Seq<DirEntry>, view: ListView) -> bool {
    &&& forall|rel: Seq<char>| #[trigger]
        has_entry(entries, rel, true) ==> view.handed.contains(rel) || view.pending.contains(rel)
    &&& forall|rel: Seq<char>| #[trigger] has_entry(entries, rel, false) ==> view.files.contains(rel)
}

proof fn lemma_stays_on_course(
    prefix: Seq<char>,
    disk: Disk,
    files: Set<Seq<char>>,
    view: ListView,
)
    requires
        holds(disk, files),
        on_course(prefix, disk, files, view),
        view.pending.len() > 0,
    ensures
        on_course(prefix, disk, files, all_entered(view.handing(), disk(view.pending.last()))),
{
    let dir = view.pending.last();
    let entries = disk(dir);
    let rest = view.pending.drop_last();
    let after = all_entered(view.handing(), entries);
    let dirs = dirs_of(entries);
    let found = files_of(entries);
    assert(dir_holds(disk(dir), files, dir));
    lemma_all_entered(view.handing(), entries);
    lemma_parts_of(entries);
    lemma_concat(rest, dirs);
    lemma_concat(view.files, found);
    assert(view.pending.contains(dir));
    assert(view.pending =~= rest.push(dir));
    assert forall|x: Seq<char>| #[trigger] after.handed.contains(x) <==> view.handed.contains(x) || x
        == dir by {
        lemma_push_contains(view.handed, dir, x);
    }
    assert forall|x: Seq<char>| #[trigger] view.pending.contains(x) <==> rest.contains(x) || x
        == dir by {
        lemma_push_contains(rest, dir, x);
    }
    assert(!rest.contains(dir)) by {
        if rest.contains(dir) {
            let i = rest.index_of(dir);
            assert(view.pending[i] == view.pending[view.pending.len() - 1]);
        }
    }
    lemma_push_distinct(view.handed, dir);
    // A path in the directory was not met before.
    assert forall|x: Seq<char>| directly_in(dir, x) implies !view.handed.contains(x)
        && !view.pending.contains(x) && !view.files.contains(x) && x != dir && #[trigger] in_reach(
        prefix,
        x,
    ) by {
        lemma_reach_grows(prefix, dir, x);
        if has_parent(view.handed, x) {
            let d = lemma_parent_among(view.handed, x);
            lemma_one_parent(d, dir, x);
        }
    }
    assert forall|x: Seq<char>| #[trigger] dirs.contains(x) implies !rest.contains(x)
        && !after.handed.contains(x) && in_reach(prefix, x) && has_parent(after.handed, x) && below(
        files,
        x,
    ) by {
        assert(has_entry(entries, x, true));
        assert(in_reach(prefix, x));
        assert(after.handed.contains(dir));
        lemma_has_parent(after.handed, dir, x);
    }
    assert forall|x: Seq<char>| #[trigger] found.contains(x) implies !view.files.contains(x)
        && files.contains(x) && has_parent(after.handed, x) by {
        assert(has_entry(entries, x, false));
        assert(in_reach(prefix, x));
        assert(after.handed.contains(dir));
        lemma_has_parent(after.handed, dir, x);
    }
    assert forall|x: Seq<char>| has_parent(view.handed, x) implies #[trigger] has_parent(
        after.handed,
        x,
    ) by {
        let d = lemma_parent_among(view.handed, x);
        assert(after.handed.contains(d));
        lemma_has_parent(after.handed, d, x);
    }
    assert(rest.no_duplicates());
    assert(after.pending.no_duplicates());
    assert(after.files.no_duplicates());
    assert forall|d: Seq<char>| #[trigger] after.handed.contains(d) implies in_reach(prefix, d) && (
    d == prefix || (has_parent(after.handed, d) && below(files, d))) && read(disk(d), after) by {
        if d != dir {
            assert(view.handed.contains(d));
            assert(read(disk(d), view));
        }
    }
    assert forall|d: Seq<char>| #[trigger] after.pending.contains(d) implies !after.handed.contains(d)
        && in_reach(prefix, d) && (d == prefix || (has_parent(after.handed, d) && below(files, d))) by {
        assert(rest.contains(d) || dirs.contains(d));
        if rest.contains(d) {
            assert(view.pending.contains(d));
        }
    }
    assert forall|f: Seq<char>| #[trigger] after.files.contains(f) implies files.contains(f)
        && has_parent(after.handed, f) by {
        assert(view.files.contains(f) || found.contains(f));
    }
    if view.pending.contains(prefix) && prefix != dir {
        assert(rest.contains(prefix));
        assert(after.pending.contains(prefix));
    } else {
        assert(after.handed.contains(prefix));
    }
}

proof fn lemma_on_course(prefix: Seq<char>, disk: Disk, files: Set<Seq<char>>, n: nat)
    requires
        holds(disk, files),
    ensures
        on_course(prefix, disk, files, descended(prefix, disk, n)),
    decreases n,
{
    if n == 0 {
        let view = ListView::begun(prefix);
        assert(view.pending[0] == prefix);
        assert(view.pending.contains(prefix));
    } else {
        lemma_on_course(prefix, disk, files, (n - 1) as nat);
        let view = descended(prefix, disk, (n - 1) as nat);
        if view.pending.len() > 0 {
            lemma_stays_on_course(prefix, disk, files, view);
        }
    }
}

/// A directory in reach that leads to a file was read.
proof fn lemma_was_read(
    prefix: Seq<char>,
    disk: Disk,
    files: Set<Seq<char>>,
    view: ListView,
    dir: Seq<char>,
    file: Seq<char>,
)
    requires
        holds(disk, files),
        forall|f: Seq<char>| #[trigger] files.contains(f) ==> is_normal(f),
        on_course(prefix, disk, files, view),
        view.pending.len() == 0,
        in_reach(prefix, dir),
        files.contains(file),
        starts_with(file, inside(dir)),
    ensures
        view.handed.contains(dir),
    decreases dir.len(),
{
    reveal_strlit("/");
    if dir != prefix {
        let n = dir.len() as int;
        assert(n > 0) by {
            if n == 0 {
                assert(dir =~= prefix);
            }
        }
        assert(file.take(n + 1)[n] == '/');
        assert(file.take(n + 1)[n - 1] == dir[n - 1]);
        assert(is_normal(file));
        assert(dir.last() != '/') by {
            if dir.last() == '/' {
                assert(file[n - 1] == '/');
                assert(file[n - 1 + 1] != '/');
            }
        }
        assert(file.take(n + 1)[0] == dir[0]);
        let parent = lemma_parent(prefix, dir);
        assert(starts_with(file, inside(parent))) by {
            let k = inside(parent).len() as int;
            assert(file.take(k) =~= file.take(n + 1).take(k));
            assert(inside(dir).take(k) =~= dir.take(k));
        }
        lemma_was_read(prefix, disk, files, view, parent, file);
        assert(dir_holds(disk(parent), files, parent));
        assert(below(files, dir));
        assert(has_entry(disk(parent), dir, true));
        assert(read(disk(parent), view));
    }
}

/// A listing that has no directory left has come upon every file below the prefix, at any depth,
/// once, and upon no other.
pub proof fn law_a_listing_is_complete(
    prefix: Seq<char>,
    disk: Disk,
    files: Set<Seq<char>>,
    n: nat,
)
    requires
        holds(disk, files),
        forall|f: Seq<char>| #[trigger] files.contains(f) ==> is_normal(f),
    ensures
        ({
            let view = descended(prefix, disk, n);
            view.pending.len() == 0 ==> {
                &&& view.files.no_duplicates()
                &&& forall|f: Seq<char>| #[trigger]
                    view.files.contains(f) <==> files.contains(f) && starts_with(f, inside(prefix))
            }
        }),
{
    lemma_on_course(prefix, disk, files, n);
    let view = descended(prefix, disk, n);
    if view.pending.len() == 0 {
        assert forall|f: Seq<char>| #[trigger]
            view.files.contains(f) <==> files.contains(f) && starts_with(f, inside(prefix)) by {
            if view.files.contains(f) {
                let d = lemma_parent_among(view.handed, f);
                lemma_reach_grows(prefix, d, f);
            }
            if files.contains(f) && starts_with(f, inside(prefix)) {
                reveal_strlit("/");
                assert(is_normal(f));
                if f.last() == '/' {
                    assert(f[f.len() - 1] == '/');
                }
                let parent = lemma_parent(prefix, f);
                lemma_was_read(prefix, disk, files, view, parent, f);
                assert(dir_holds(disk(parent), files, parent));
                assert(has_entry(disk(parent), f, false));
                assert(read(disk(parent), view));
            }
        }
    }
}

/// The directories that lead to the files.
spec fn leading_to(files: Set<Seq<char>>) -> Set<Seq<char>> {
    Set::new(|dir: Seq<char>| below(files, dir))
}

proof fn lemma_finitely_many_lead(files: Set<Seq<char>>)
    requires
        files.finite(),
    ensures
        leading_to(files).finite(),
    decreases files.len(),
{
    reveal_strlit("/");
    if files.len() == 0 {
        assert(leading_to(files) =~= Set::empty());
    } else {
        let file = files.choose();
        let rest = files.remove(file);
        lemma_finitely_many_lead(rest);
        let begins = Seq::new(file.len() + 1, |k: int| file.take(k));
        vstd::seq_lib::seq_to_set_is_finite(begins);
        let all = leading_to(rest).union(begins.to_set());
        assert forall|dir: Seq<char>| leading_to(files).contains(dir) implies all.contains(dir) by {
            let f = choose|f: Seq<char>| #[trigger]
                files.contains(f) && starts_with(f, inside(dir));
            if f == file {
                let n = dir.len() as int;
                assert(inside(dir).take(n) =~= dir);
                assert(file.take(inside(dir).len() as int).take(n) =~= file.take(n));
                assert(begins[n] == dir);
            } else {
                assert(rest.contains(f));
            }
        }
        vstd::set_lib::lemma_set_subset_finite(all, leading_to(files));
    }
}

/// While a directory is left, each step reads one more.
proof fn lemma_each_step_reads(prefix: Seq<char>, disk: Disk, n: nat)
    ensures
        ({
            let view = descended(prefix, disk, n);
            view.pending.len() == 0 || view.handed.len() == n
        }),
    decreases n,
{
    if n > 0 {
        lemma_each_step_reads(prefix, disk, (n - 1) as nat);
        let view = descended(prefix, disk, (n - 1) as nat);
        if view.pending.len() > 0 {
            lemma_all_entered(view.handing(), disk(view.pending.last()));
        }
    }
}

/// A listing of finitely many files ends: a moment comes when no directory is left.
pub proof fn law_a_listing_ends(prefix: Seq<char>, disk: Disk, files: Set<Seq<char>>)
    requires
        files.finite(),
        holds(disk, files),
    ensures
        exists|n: nat| (#[trigger] descended(prefix, disk, n)).pending.len() == 0,
{
    lemma_finitely_many_lead(files);
    let all = leading_to(files).insert(prefix);
    let n = all.len() + 1;
    let view = descended(prefix, disk, n);
    lemma_on_course(prefix, disk, files, n);
    lemma_each_step_reads(prefix, disk, n);
    view.handed.unique_seq_to_set();
    assert forall|d: Seq<char>| view.handed.to_set().contains(d) implies all.contains(d) by {
        assert(view.handed.contains(d));
    }
    vstd::set_lib::lemma_len_subset(view.handed.to_set(), all);
}

/// The store on disk lists every key under the prefix, recursively: a descent through a directory
/// that holds the objects of a store, and perhaps files that are still being written, gives what the
/// store in memory lists, in the same order.
///
/// The prefix is a directory below the root, not itself a key.
pub proof fn law_a_listing_gives_every_key(
    store: Objects,
    unfinished: Set<Seq<char>>,
    prefix: Seq<char>,
    disk: Disk,
    n: nat,
    local: Seq<Seq<char>>,
    memory: Seq<Seq<char>>,
)
    requires
        keys_are_paths(store),
        forall|f: Seq<char>| #[trigger] unfinished.contains(f) ==> is_temporary(f),
        forall|f: Seq<char>| #[trigger]
            store.dom().union(unfinished).contains(f) ==> is_normal(f),
        holds(disk, store.dom().union(unfinished)),
        prefix.len() > 0,
        !store.contains_key(prefix),
        descended(prefix, disk, n).pending.len() == 0,
        sorted_texts(local),
        local.to_multiset() == keys_of_paths(descended(prefix, disk, n).files).to_multiset(),
        sorted_texts(memory),
        memory.no_duplicates(),
        forall|k: Seq<char>| #[trigger]
            memory.contains(k) <==> store.contains_key(k) && lists(prefix, k),
    ensures
        local == memory,
{
    let files = store.dom().union(unfinished);
    let rels = descended(prefix, disk, n).files;
    law_a_listing_is_complete(prefix, disk, files, n);
    assert forall|rel: Seq<char>| #[trigger]
        rels.contains(rel) && !is_temporary(rel) <==> store.contains_key(rel) && starts_with(
            rel,
            prefix + "/"@,
        ) by {
        assert(rels.contains(rel) <==> files.contains(rel) && starts_with(rel, inside(prefix)));
    }
    assert(on_disk(store, prefix, rels));
    law_both_stores_list_alike(store, prefix, rels, local, memory);
}

} // verus!
