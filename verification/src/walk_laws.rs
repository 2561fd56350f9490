//! Laws of the walk: every entry of the database directory is kept once, in the place that it
//! belongs to.

use vstd::prelude::*;
use vstd::string::*;
use std::path::PathBuf;
use crate::capture::{entry_kind, names_of, EntryKind, TryView, WalkView, CAPTURE_RETRIES};
use crate::capture_laws::{capture_of, journals_read, law_the_first_stable_try_is_captured, Sight};
use crate::lists::lemma_push_contains;
use crate::text::{after_last, ends_with, replaced};
use crate::text_laws::law_the_last_component;
use crate::types::Content;
use crate::upload::content_paths;

verus! {

/// One entry of the directory: its path relative to the root, its final component, whether it is a
/// directory, its place on disk, and its bytes, which are read if it is a pointer.
pub struct Entry {
    pub rel: Seq<char>,
    pub name: Seq<char>,
    pub is_dir: bool,
    pub path: PathBuf,
    pub bytes: Seq<u8>,
}

impl Entry {
    /// The path under which it is captured.
    pub open spec fn place(self) -> Seq<char> {
        replaced(self.rel, '\\', '/')
    }

    pub open spec fn kind(self) -> EntryKind {
        entry_kind(self.place(), self.name, self.is_dir)
    }
}

/// The walk that visits these entries, and reads the pointers among them.
pub open spec fn walk_of(entries: Seq<Entry>) -> WalkView
    decreases entries.len(),
{
    if entries.len() == 0 {
        WalkView::empty()
    } else {
        let entry = entries.last();
        let walk = walk_of(entries.drop_last()).visited(entry.place(), entry.kind(), entry.path);
        if entry.kind() is Pointer {
            walk.pointed(entry.place(), entry.bytes)
        } else {
            walk
        }
    }
}

/// The entries of a directory tree: no path comes twice, and each name is the final component of
/// its path.
pub open spec fn is_tree(entries: Seq<Entry>) -> bool {
    &&& forall|i: int, j: int|
        0 <= i < j < entries.len() ==> (#[trigger] entries[i]).place() != (
        #[trigger] entries[j]).place()
    &&& forall|i: int|
        0 <= i < entries.len() ==> (#[trigger] entries[i]).name == after_last(
            entries[i].place(),
            '/',
        )
}

/// Each path is in one list and comes once; no list has a lock; the files have no journal and no
/// pointer among them, the journals nothing but journals, the pointers nothing but pointers.
pub open spec fn sorted_out(
    files: Seq<Seq<char>>,
    journals: Seq<Seq<char>>,
    pointers: Seq<Seq<char>>,
) -> bool {
    &&& files.no_duplicates()
    &&& journals.no_duplicates()
    &&& pointers.no_duplicates()
    &&& forall|path: Seq<char>| #[trigger]
        files.contains(path) ==> {
            &&& !journals.contains(path)
            &&& !pointers.contains(path)
            &&& !ends_with(path, ".jnl"@)
            &&& after_last(path, '/') != "lock"@
            &&& after_last(path, '/') != "current"@
        }
    &&& forall|path: Seq<char>| #[trigger]
        journals.contains(path) ==> {
            &&& !pointers.contains(path)
            &&& ends_with(path, ".jnl"@)
            &&& after_last(path, '/') != "lock"@
        }
    &&& forall|path: Seq<char>| #[trigger]
        pointers.contains(path) ==> after_last(path, '/') == "current"@
}

/// Whether one of the entries is of this kind and has this path.
spec fn has_entry(entries: Seq<Entry>, kind: EntryKind, path: Seq<char>) -> bool {
    exists|k: int|
        0 <= k < entries.len() && (#[trigger] entries[k]).kind() == kind && entries[k].place()
            == path
}

/// The captured paths are those of the entries of each kind, and none comes twice.
spec fn mirrors(entries: Seq<Entry>, list: Seq<Seq<char>>, kind: EntryKind) -> bool {
    &&& list.no_duplicates()
    &&& forall|path: Seq<char>| #[trigger] list.contains(path) <==> has_entry(entries, kind, path)
}

/// One more entry of this kind, or of another.
proof fn lemma_mirrors(
    entries: Seq<Entry>,
    list: Seq<Seq<char>>,
    kind: EntryKind,
)
    requires
        entries.len() > 0,
        is_tree(entries),
        mirrors(entries.drop_last(), list, kind),
    ensures
        mirrors(
            entries,
            if entries.last().kind() == kind {
                list.push(entries.last().place())
            } else {
                list
            },
            kind,
        ),
{
    let before = entries.drop_last();
    let entry = entries.last();
    let now = if entry.kind() == kind {
        list.push(entry.place())
    } else {
        list
    };
    assert forall|path: Seq<char>| #[trigger] now.contains(path) <==> has_entry(entries, kind, path) by {
        lemma_push_contains(list, entry.place(), path);
        if has_entry(before, kind, path) {
            let k = choose|k: int|
                0 <= k < before.len() && (#[trigger] before[k]).kind() == kind && before[k].place()
                    == path;
            assert(entries[k].kind() == kind && entries[k].place() == path);
        }
        if has_entry(entries, kind, path) {
            let k = choose|k: int|
                0 <= k < entries.len() && (#[trigger] entries[k]).kind() == kind
                    && entries[k].place() == path;
            if k < before.len() {
                assert(before[k].kind() == kind && before[k].place() == path);
            }
        }
        if entry.kind() == kind && path == entry.place() {
            assert(entries[entries.len() - 1].kind() == kind);
        }
        assert(list.contains(path) <==> has_entry(before, kind, path));
    }
    if list.contains(entry.place()) {
        let k = choose|k: int|
            0 <= k < before.len() && (#[trigger] before[k]).kind() == kind && before[k].place()
                == entry.place();
        assert(entries[k].place() != entries[entries.len() - 1].place());
    }
    assert(now.no_duplicates()) by {
        assert forall|i: int, j: int|
            0 <= i < now.len() && 0 <= j < now.len() && i != j implies now[i] != now[j] by {
            if i < list.len() {
                assert(list.contains(list[i]));
            }
            if j < list.len() {
                assert(list.contains(list[j]));
            }
        }
    }
}

proof fn lemma_walk_mirrors(entries: Seq<Entry>)
    requires
        is_tree(entries),
    ensures
        ({
            let walk = walk_of(entries);
            &&& mirrors(entries, names_of(walk.files), EntryKind::Immutable)
            &&& mirrors(entries, names_of(walk.journals), EntryKind::Journal)
            &&& mirrors(entries, content_paths(walk.pointers), EntryKind::Pointer)
            &&& mirrors(entries, walk.dirs, EntryKind::Directory)
        }),
    decreases entries.len(),
{
    let walk = walk_of(entries);
    if entries.len() > 0 {
        let before = entries.drop_last();
        let was = walk_of(before);
        let place = entries.last().place();
        assert forall|i: int, j: int| 0 <= i < j < before.len() implies (
        #[trigger] before[i]).place() != (#[trigger] before[j]).place() by {
            assert(before[i] == entries[i] && before[j] == entries[j]);
        }
        assert forall|i: int| 0 <= i < before.len() implies (#[trigger] before[i]).name
            == after_last(before[i].place(), '/') by {
            assert(before[i] == entries[i]);
        }
        lemma_walk_mirrors(before);
        lemma_mirrors(entries, names_of(was.files), EntryKind::Immutable);
        lemma_mirrors(entries, names_of(was.journals), EntryKind::Journal);
        lemma_mirrors(entries, content_paths(was.pointers), EntryKind::Pointer);
        lemma_mirrors(entries, was.dirs, EntryKind::Directory);
        match entries.last().kind() {
            EntryKind::Immutable => {
                assert(names_of(walk.files) =~= names_of(was.files).push(place));
            },
            EntryKind::Journal => {
                assert(names_of(walk.journals) =~= names_of(was.journals).push(place));
            },
            EntryKind::Pointer => {
                assert(content_paths(walk.pointers) =~= content_paths(was.pointers).push(place));
            },
            _ => {},
        }
    } else {
        assert(names_of(walk.files) =~= Seq::empty());
        assert(names_of(walk.journals) =~= Seq::empty());
        assert(content_paths(walk.pointers) =~= Seq::empty());
    }
}

/// A walk of a directory tree sorts out its entries: each path is in one list and comes once, and
/// no lock, journal or pointer is among the immutable files.
pub proof fn law_a_walk_sorts_out_its_entries(entries: Seq<Entry>)
    requires
        is_tree(entries),
    ensures
        ({
            let walk = walk_of(entries);
            sorted_out(names_of(walk.files), names_of(walk.journals), content_paths(walk.pointers))
        }),
{
    lemma_walk_mirrors(entries);
    let walk = walk_of(entries);
    let files = names_of(walk.files);
    let journals = names_of(walk.journals);
    let pointers = content_paths(walk.pointers);
    assert forall|path: Seq<char>| #[trigger] files.contains(path) implies {
        &&& !journals.contains(path)
        &&& !pointers.contains(path)
        &&& !ends_with(path, ".jnl"@)
        &&& after_last(path, '/') != "lock"@
        &&& after_last(path, '/') != "current"@
    } by {
        lemma_one_kind(entries, path, EntryKind::Immutable, EntryKind::Journal);
        lemma_one_kind(entries, path, EntryKind::Immutable, EntryKind::Pointer);
    }
    assert forall|path: Seq<char>| #[trigger] journals.contains(path) implies {
        &&& !pointers.contains(path)
        &&& ends_with(path, ".jnl"@)
        &&& after_last(path, '/') != "lock"@
    } by {
        lemma_one_kind(entries, path, EntryKind::Journal, EntryKind::Pointer);
    }
    assert forall|path: Seq<char>| #[trigger] pointers.contains(path) implies after_last(path, '/')
        == "current"@ by {
        lemma_one_kind(entries, path, EntryKind::Pointer, EntryKind::Journal);
    }
}

/// A path is of one kind, the one that its name says.
proof fn lemma_one_kind(entries: Seq<Entry>, path: Seq<char>, kind: EntryKind, other: EntryKind)
    requires
        is_tree(entries),
        kind != other,
        !(kind is Directory),
        has_entry(entries, kind, path),
    ensures
        !has_entry(entries, other, path),
        entry_kind(path, after_last(path, '/'), false) == kind,
{
    let k = choose|k: int|
        0 <= k < entries.len() && (#[trigger] entries[k]).kind() == kind && entries[k].place()
            == path;
    if has_entry(entries, other, path) {
        let l = choose|l: int|
            0 <= l < entries.len() && (#[trigger] entries[l]).kind() == other && entries[l].place()
                == path;
        if k < l {
            assert(entries[k].place() != entries[l].place());
        } else if l < k {
            assert(entries[l].place() != entries[k].place());
        }
    }
}

/// A walk loses nothing but the lock: every directory, journal, pointer and immutable file of the
/// tree is in the list of its kind.
pub proof fn law_a_walk_loses_nothing(entries: Seq<Entry>, k: int)
    requires
        is_tree(entries),
        0 <= k < entries.len(),
    ensures
        ({
            let walk = walk_of(entries);
            let path = entries[k].place();
            match entries[k].kind() {
                EntryKind::Directory => walk.dirs.contains(path),
                EntryKind::Lock => true,
                EntryKind::Journal => names_of(walk.journals).contains(path),
                EntryKind::Pointer => content_paths(walk.pointers).contains(path),
                EntryKind::Immutable => names_of(walk.files).contains(path),
            }
        }),
{
    lemma_walk_mirrors(entries);
    assert(has_entry(entries, entries[k].kind(), entries[k].place()));
}

/// What a capture returns is sorted out: after any number of dropped tries, each captured path is
/// in one list and comes once, and no lock, journal or pointer is among the immutable files.
pub proof fn law_a_capture_is_sorted_out(
    parent: Option<u64>,
    sights: Seq<Sight>,
    trees: Seq<Seq<Entry>>,
)
    requires
        sights.len() == CAPTURE_RETRIES,
        trees.len() == CAPTURE_RETRIES,
        forall|k: int| 0 <= k < trees.len() ==> is_tree(#[trigger] trees[k]),
        forall|k: int|
            0 <= k < trees.len() ==> ((#[trigger] sights[k]).walk is Some ==> sights[k].walk == Some(
                walk_of(trees[k]),
            )),
    ensures
        capture_of(TryView { parent, attempt: 0 }, sights) matches Some(captured) ==> sorted_out(
            captured.version.files,
            content_paths(captured.version.journals),
            content_paths(captured.version.pointers),
        ),
{
    let attempt = TryView { parent, attempt: 0 };
    law_the_first_stable_try_is_captured(attempt, sights);
    if let Some(captured) = capture_of(attempt, sights) {
        let k = captured.retries;
        let walk = sights[k].walk->0;
        assert(is_tree(trees[k]));
        law_a_walk_sorts_out_its_entries(trees[k]);
        let read = journals_read(sights[k], walk, walk.journals.len());
        assert(content_paths(read) =~= names_of(walk.journals));
    }
}

/// A path with forward slashes.
pub open spec fn slashed(rel: Seq<char>) -> Seq<char> {
    rel.map_values(|c: char| if c == '\\' { '/' } else { c })
}

/// A file that never changes: neither the lock, nor a HEAD pointer, nor a journal.
pub open spec fn is_data(entry: Entry) -> bool {
    &&& !entry.is_dir
    &&& entry.name != "lock"@
    &&& entry.name != "current"@
    &&& !has_journal_name(slashed(entry.rel))
}

/// A journal, by its name.
pub open spec fn is_journal(entry: Entry) -> bool {
    !entry.is_dir && has_journal_name(slashed(entry.rel))
}

/// A HEAD pointer, by its name.
pub open spec fn is_head(entry: Entry) -> bool {
    !entry.is_dir && entry.name == "current"@
}

/// The last four characters are `.jnl`.
pub open spec fn has_journal_name(path: Seq<char>) -> bool {
    path.len() >= 4 && path.subrange(path.len() - 4, path.len() as int) == seq!['.', 'j', 'n', 'l']
}

/// One of the entries is of that sort, and has this path.
pub open spec fn has_one(entries: Seq<Entry>, sort: spec_fn(Entry) -> bool, path: Seq<char>) -> bool {
    exists|k: int|
        0 <= k < entries.len() && sort(#[trigger] entries[k]) && slashed(entries[k].rel) == path
}

/// What the names of an entry of a tree make it.
proof fn lemma_sorts(entry: Entry)
    requires
        entry.name == after_last(entry.place(), '/'),
    ensures
        entry.place() == slashed(entry.rel),
        is_data(entry) <==> entry.kind() is Immutable,
        is_journal(entry) <==> entry.kind() is Journal,
        is_head(entry) <==> entry.kind() is Pointer,
        entry.is_dir <==> entry.kind() is Directory,
        entry.kind() is Lock <==> !entry.is_dir && entry.name == "lock"@,
{
    reveal_strlit(".jnl");
    reveal_strlit("lock");
    reveal_strlit("current");
    let path = entry.place();
    assert(path =~= slashed(entry.rel));
    assert(".jnl"@ =~= seq!['.', 'j', 'n', 'l']);
    if path.len() >= 4 {
        assert(path.skip(path.len() - 4) =~= path.subrange(path.len() - 4, path.len() as int));
    }
    if has_journal_name(path) {
        let tail = path.subrange(path.len() - 4, path.len() as int);
        assert(tail[3] == 'l');
        assert(path.last() == 'l');
        law_the_last_component(path, '/');
        assert(entry.name.len() > 0 ==> entry.name.last() == path.last());
    }
}

proof fn lemma_has_one(
    entries: Seq<Entry>,
    sort: spec_fn(Entry) -> bool,
    kind: EntryKind,
    path: Seq<char>,
)
    requires
        forall|k: int|
            #![trigger entries[k]]
            0 <= k < entries.len() ==> (sort(entries[k]) <==> entries[k].kind() == kind)
                && entries[k].place() == slashed(entries[k].rel),
    ensures
        has_one(entries, sort, path) <==> has_entry(entries, kind, path),
{
    if has_one(entries, sort, path) {
        let k = choose|k: int|
            0 <= k < entries.len() && sort(#[trigger] entries[k]) && slashed(entries[k].rel) == path;
        assert(entries[k].kind() == kind && entries[k].place() == path);
    }
    if has_entry(entries, kind, path) {
        let k = choose|k: int|
            0 <= k < entries.len() && (#[trigger] entries[k]).kind() == kind && entries[k].place()
                == path;
        assert(sort(entries[k]) && slashed(entries[k].rel) == path);
    }
}

/// The walk of a tree finds everything in it, by name. Its files are exactly the entries that are no
/// directory, are not named `lock` or `current` and do not end in `.jnl`: tables, blobs, manifests and
/// markers, wherever they are. Its journals are exactly those that end in `.jnl`, its pointers those
/// named `current`, its directories all of them. Only a file named `lock` is in no list.
pub proof fn law_a_walk_finds_everything(entries: Seq<Entry>, path: Seq<char>)
    requires
        is_tree(entries),
    ensures
        ({
            let walk = walk_of(entries);
            &&& names_of(walk.files).contains(path) <==> has_one(
                entries,
                |e: Entry| is_data(e),
                path,
            )
            &&& names_of(walk.journals).contains(path) <==> has_one(
                entries,
                |e: Entry| is_journal(e),
                path,
            )
            &&& content_paths(walk.pointers).contains(path) <==> has_one(
                entries,
                |e: Entry| is_head(e),
                path,
            )
            &&& walk.dirs.contains(path) <==> has_one(entries, |e: Entry| e.is_dir, path)
            &&& has_one(entries, |e: Entry| e.is_dir || e.name != "lock"@, path) ==> {
                ||| names_of(walk.files).contains(path)
                ||| names_of(walk.journals).contains(path)
                ||| content_paths(walk.pointers).contains(path)
                ||| walk.dirs.contains(path)
            }
        }),
{
    lemma_walk_mirrors(entries);
    assert forall|k: int| 0 <= k < entries.len() implies {
        let e = #[trigger] entries[k];
        &&& e.place() == slashed(e.rel)
        &&& is_data(e) <==> e.kind() == EntryKind::Immutable
        &&& is_journal(e) <==> e.kind() == EntryKind::Journal
        &&& is_head(e) <==> e.kind() == EntryKind::Pointer
        &&& e.is_dir <==> e.kind() == EntryKind::Directory
        &&& e.kind() is Lock <==> !e.is_dir && e.name == "lock"@
    } by {
        lemma_sorts(entries[k]);
    }
    lemma_has_one(entries, |e: Entry| is_data(e), EntryKind::Immutable, path);
    lemma_has_one(entries, |e: Entry| is_journal(e), EntryKind::Journal, path);
    lemma_has_one(entries, |e: Entry| is_head(e), EntryKind::Pointer, path);
    lemma_has_one(entries, |e: Entry| e.is_dir, EntryKind::Directory, path);
    let kept = |e: Entry| e.is_dir || e.name != "lock"@;
    if has_one(entries, kept, path) {
        let k = choose|k: int|
            0 <= k < entries.len() && kept(#[trigger] entries[k]) && slashed(entries[k].rel) == path;
        assert(has_entry(entries, entries[k].kind(), path));
    }
}

/// Each entry is found with where it is and what it holds: a file and a journal with their place on
/// disk, a pointer with its bytes.
pub proof fn law_a_walk_keeps_places_and_bytes(entries: Seq<Entry>, k: int)
    requires
        is_tree(entries),
        0 <= k < entries.len(),
    ensures
        ({
            let walk = walk_of(entries);
            let e = entries[k];
            &&& is_data(e) ==> walk.files.contains((slashed(e.rel), e.path))
            &&& is_journal(e) ==> walk.journals.contains((slashed(e.rel), e.path))
            &&& is_head(e) ==> walk.pointers.contains(
                Content { path: slashed(e.rel), bytes: e.bytes },
            )
        }),
    decreases entries.len(),
{
    let before = entries.drop_last();
    let was = walk_of(before);
    let walk = walk_of(entries);
    let last = entries[entries.len() - 1];
    lemma_sorts(entries[k]);
    lemma_sorts(last);
    let e = entries[k];
    let file = (slashed(e.rel), e.path);
    let head = Content { path: slashed(e.rel), bytes: e.bytes };
    if k < before.len() {
        assert forall|i: int, j: int| 0 <= i < j < before.len() implies (
        #[trigger] before[i]).place() != (#[trigger] before[j]).place() by {
            assert(before[i] == entries[i] && before[j] == entries[j]);
        }
        assert forall|i: int| 0 <= i < before.len() implies (#[trigger] before[i]).name
            == after_last(before[i].place(), '/') by {
            assert(before[i] == entries[i]);
        }
        law_a_walk_keeps_places_and_bytes(before, k);
        lemma_push_contains(was.files, (last.place(), last.path), file);
        lemma_push_contains(was.journals, (last.place(), last.path), file);
        lemma_push_contains(
            was.pointers,
            Content { path: last.place(), bytes: last.bytes },
            head,
        );
    } else {
        lemma_push_contains(was.files, file, file);
        lemma_push_contains(was.journals, file, file);
        lemma_push_contains(was.pointers, head, head);
    }
}

/// A capture is complete: what it returns has every file, journal, pointer and directory of the tree
/// that the last try walked, by name, and is the child of the version before.
pub proof fn law_a_capture_is_complete(
    parent: Option<u64>,
    sights: Seq<Sight>,
    trees: Seq<Seq<Entry>>,
    path: Seq<char>,
)
    requires
        sights.len() == CAPTURE_RETRIES,
        trees.len() == CAPTURE_RETRIES,
        forall|k: int| 0 <= k < trees.len() ==> is_tree(#[trigger] trees[k]),
        forall|k: int|
            0 <= k < trees.len() ==> ((#[trigger] sights[k]).walk is Some ==> sights[k].walk == Some(
                walk_of(trees[k]),
            )),
    ensures
        capture_of(TryView { parent, attempt: 0 }, sights) matches Some(captured) ==> {
            let version = captured.version;
            let tree = trees[captured.retries];
            &&& version.parent == parent
            &&& version.seqno == sights[captured.retries].seqno
            &&& version.files.contains(path) <==> has_one(tree, |e: Entry| is_data(e), path)
            &&& content_paths(version.journals).contains(path) <==> has_one(
                tree,
                |e: Entry| is_journal(e),
                path,
            )
            &&& content_paths(version.pointers).contains(path) <==> has_one(
                tree,
                |e: Entry| is_head(e),
                path,
            )
            &&& version.dirs.contains(path) <==> has_one(tree, |e: Entry| e.is_dir, path)
        },
{
    let attempt = TryView { parent, attempt: 0 };
    law_the_first_stable_try_is_captured(attempt, sights);
    if let Some(captured) = capture_of(attempt, sights) {
        let k = captured.retries;
        let walk = sights[k].walk->0;
        assert(is_tree(trees[k]));
        law_a_walk_finds_everything(trees[k], path);
        let read = journals_read(sights[k], walk, walk.journals.len());
        assert(content_paths(read) =~= names_of(walk.journals));
    }
}

} // verus!
