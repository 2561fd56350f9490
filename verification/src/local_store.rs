//! The naming rules of a filesystem-backed object store: which path holds which key, and which
//! of the files on disk are objects. Paths are joined as on Unix.

use vstd::prelude::*;
use vstd::string::*;
use crate::lists::lemma_push_contains;
use crate::object_store::{lists, Objects};
use crate::order::{lemma_sorted_distinct, lemma_strictly_sorted_unique, sort_texts, sorted_texts};
use crate::text::{ends_with, has_prefix, has_suffix, replace_char, replaced, starts_with, texts};

verus! {

/// What is appended to the path of an object while it is being written.
pub const TMP_SUFFIX: &'static str = ".fjallstream-tmp";

/// A filesystem-backed object store, for tests, local development, and single-host backup to a
/// different disk. The "bucket" is a directory; keys map to nested paths under it.
pub struct LocalObjectStore {
    pub root: String,
}

/// The path of `key` below `root`: an absolute key stands for itself, any other is joined to the
/// root by one slash.
pub open spec fn joined(root: Seq<char>, key: Seq<char>) -> Seq<char> {
    if starts_with(key, "/"@) {
        key
    } else if root.len() == 0 || ends_with(root, "/"@) {
        root + key
    } else {
        root + "/"@ + key
    }
}

/// The key of the file at a path relative to the root, with forward slashes. A file that is still
/// being written is no object.
pub open spec fn key_of_path(rel: Seq<char>) -> Option<Seq<char>> {
    let key = replaced(rel, '\\', '/');
    if ends_with(key, TMP_SUFFIX@) {
        None
    } else {
        Some(key)
    }
}

/// The keys of those of the files that are objects, in the order of the files.
pub open spec fn keys_of_paths(rels: Seq<Seq<char>>) -> Seq<Seq<char>> {
    rels.filter_map(|rel: Seq<char>| key_of_path(rel))
}

impl LocalObjectStore {
    /// A store whose objects live under `root`.
    pub fn new(root: &str) -> (r: Self)
        ensures
            r.root@ == root@,
    {
        LocalObjectStore { root: root.to_owned() }
    }

    /// The path of the object with this key.
    pub fn path_for(&self, key: &str) -> (r: String)
        ensures
            r@ == joined(self.root@, key@),
    {
        if has_prefix(key, "/") {
            return key.to_owned();
        }
        let mut out = self.root.clone();
        if !out.as_str().is_empty() && !has_suffix(out.as_str(), "/") {
            out.append("/");
        }
        out.append(key);
        out
    }

    /// The path that an object is written to before it is renamed into place, so that a reader
    /// never sees a half-written object.
    pub fn tmp_path_for(&self, key: &str) -> (r: String)
        ensures
            r@ == joined(self.root@, key@) + TMP_SUFFIX@,
    {
        let mut out = self.path_for(key);
        out.append(TMP_SUFFIX);
        out
    }

    /// The key of the file at a path relative to the root, if it is an object.
    pub fn key_for(rel: &str) -> (r: Option<String>)
        ensures
            match r {
                Some(key) => key_of_path(rel@) == Some(key@),
                None => key_of_path(rel@) is None,
            },
    {
        let key = replace_char(rel, '\\', '/');
        if has_suffix(key.as_str(), TMP_SUFFIX) {
            None
        } else {
            Some(key)
        }
    }

    /// The sorted keys of the objects among the files at these paths relative to the root.
    pub fn keys_for(rels: &Vec<String>) -> (r: Vec<String>)
        ensures
            sorted_texts(texts(r@)),
            texts(r@).to_multiset() == keys_of_paths(texts(rels@)).to_multiset(),
    {
        let ghost f = |rel: Seq<char>| key_of_path(rel);
        let ghost all = texts(rels@);
        let mut out: Vec<String> = Vec::new();
        let mut i: usize = 0;
        assert(all.take(0).filter_map(f) =~= Seq::empty()) by {
            reveal(Seq::filter_map);
        }
        assert(texts(out@) =~= Seq::empty());
        while i < rels.len()
            invariant
                i <= rels.len(),
                all == texts(rels@),
                f == (|rel: Seq<char>| key_of_path(rel)),
                texts(out@) == all.take(i as int).filter_map(f),
            decreases rels.len() - i,
        {
            let ghost before = texts(out@);
            proof {
                reveal(Seq::filter_map);
                assert(all.take(i + 1).drop_last() =~= all.take(i as int));
                assert(all.take(i + 1).last() == rels[i as int]@);
            }
            match Self::key_for(rels[i].as_str()) {
                Some(key) => {
                    out.push(key);
                    assert(texts(out@) =~= before.push(key@));
                },
                None => {},
            }
            i += 1;
        }
        assert(all.take(i as int) =~= all);
        sort_texts(out)
    }
}

/// A file that is being written is never listed: the temporary path of a key is that of no
/// object.
pub proof fn law_unfinished_objects_are_not_listed(key: Seq<char>)
    ensures
        key_of_path(key + TMP_SUFFIX@) is None,
{
    reveal_strlit(".fjallstream-tmp");
    let whole = replaced(key + TMP_SUFFIX@, '\\', '/');
    assert(whole.skip(whole.len() - TMP_SUFFIX@.len()) =~= TMP_SUFFIX@);
}

/// Writing an object never touches another one: the temporary path of one key is not the path of
/// any key, unless that key itself ends like a temporary path.
pub proof fn law_temporary_paths_are_no_object_paths(
    root: Seq<char>,
    written: Seq<char>,
    other: Seq<char>,
)
    requires
        !ends_with(other, TMP_SUFFIX@),
    ensures
        joined(root, written) + TMP_SUFFIX@ != joined(root, other),
{
    reveal_strlit(".fjallstream-tmp");
    reveal_strlit("/");
    let suffix = TMP_SUFFIX@;
    let tmp = joined(root, written) + suffix;
    let path = joined(root, other);
    if tmp == path {
        let n = path.len() as int;
        let m = suffix.len() as int;
        let k = other.len() as int;
        assert forall|i: int| 0 <= i < m implies path[n - m + i] == suffix[i] by {
            assert(tmp[n - m + i] == suffix[i]);
        }
        assert forall|i: int| 0 <= i < k implies path[n - k + i] == other[i] by {}
        if k >= m {
            assert(other.skip(k - m) =~= suffix) by {
                assert forall|i: int| 0 <= i < m implies other.skip(k - m)[i] == suffix[i] by {
                    assert(path[n - k + (k - m + i)] == other[k - m + i]);
                }
            }
        } else {
            assert(n > k);
            assert(path[n - k - 1] == '/') by {
                if !starts_with(other, "/"@) && root.len() > 0 && ends_with(root, "/"@) {
                    assert(root.skip(root.len() - 1)[0] == root.last());
                }
            }
            assert(path[n - m + (m - k - 1)] == suffix[m - k - 1]);
        }
    }
}

/// The path is that of a file that is still being written.
pub open spec fn is_temporary(path: Seq<char>) -> bool {
    exists|head: Seq<char>| path == #[trigger] (head + ".fjallstream-tmp"@)
}

/// The files on disk below the directory of `prefix`, by their paths relative to the root: the
/// objects of the store there, and perhaps files that are still being written.
pub open spec fn on_disk(store: Objects, prefix: Seq<char>, rels: Seq<Seq<char>>) -> bool {
    &&& rels.no_duplicates()
    &&& forall|rel: Seq<char>| #[trigger]
        rels.contains(rel) && !is_temporary(rel) <==> store.contains_key(rel) && starts_with(
            rel,
            prefix + "/"@,
        )
}

/// Every key is a path that a file system can hold as it is: it has no backslash, and does not end
/// like a temporary path.
pub open spec fn keys_are_paths(store: Objects) -> bool {
    forall|key: Seq<char>| #[trigger]
        store.contains_key(key) ==> !key.contains('\\') && !is_temporary(key)
}

/// A file is an object exactly if it is not still being written, that is, if its path does not end in
/// `.fjallstream-tmp`, whatever else it is called. Its key is its path, with forward slashes.
pub proof fn law_every_finished_file_is_an_object(rel: Seq<char>)
    ensures
        key_of_path(rel) is None <==> is_temporary(rel),
        key_of_path(rel) matches Some(key) ==> {
            &&& key.len() == rel.len()
            &&& forall|i: int|
                0 <= i < rel.len() ==> #[trigger] key[i] == (if rel[i] == '\\' {
                    '/'
                } else {
                    rel[i]
                })
        },
        !rel.contains('\\') && !is_temporary(rel) ==> key_of_path(rel) == Some(rel),
{
    reveal_strlit(".fjallstream-tmp");
    let suffix = ".fjallstream-tmp"@;
    let key = replaced(rel, '\\', '/');
    let n = rel.len() - suffix.len();
    if is_temporary(rel) {
        let head = choose|head: Seq<char>| rel == #[trigger] (head + suffix);
        assert(rel.skip(n) =~= suffix);
        assert(key.skip(n) =~= suffix) by {
            assert forall|i: int| 0 <= i < suffix.len() implies key.skip(n)[i] == suffix[i] by {
                assert(rel.skip(n)[i] == rel[n + i]);
            }
        }
    }
    if ends_with(key, suffix) {
        assert forall|i: int| 0 <= i < suffix.len() implies rel[n + i] == suffix[i] by {
            assert(key.skip(n)[i] == key[n + i]);
        }
        assert(rel =~= rel.take(n) + suffix);
        assert(is_temporary(rel));
    }
    if !rel.contains('\\') {
        assert forall|i: int| 0 <= i < rel.len() implies key[i] == rel[i] by {
            assert(rel.contains(rel[i]));
        }
        assert(key =~= rel);
    }
}

/// Of the files at these paths, exactly the finished ones are listed, each under its own path.
pub proof fn law_exactly_the_finished_files_are_listed(rels: Seq<Seq<char>>, path: Seq<char>)
    requires
        rels.no_duplicates(),
        forall|i: int| 0 <= i < rels.len() ==> !(#[trigger] rels[i]).contains('\\'),
    ensures
        keys_of_paths(rels).contains(path) <==> rels.contains(path) && !is_temporary(path),
        keys_of_paths(rels).no_duplicates(),
{
    assert forall|rel: Seq<char>| #[trigger] rels.contains(rel) && key_of_path(rel) is Some implies key_of_path(
        rel,
    ) == Some(rel) by {
        let i = rels.index_of(rel);
        assert(!rels[i].contains('\\'));
        law_every_finished_file_is_an_object(rel);
    }
    lemma_keys_of_paths(rels);
    law_every_finished_file_is_an_object(path);
}

/// Keys are nested paths under the root: the path of a relative key is the root, a slash unless the
/// root brings its own, and the key. Two keys never share a path.
pub proof fn law_keys_are_nested_paths(root: Seq<char>, key: Seq<char>, other: Seq<char>)
    requires
        key.len() > 0,
        key[0] != '/',
        other.len() > 0,
        other[0] != '/',
    ensures
        root.len() == 0 ==> joined(root, key) == key,
        root.len() > 0 && root.last() == '/' ==> joined(root, key) == root + key,
        root.len() > 0 && root.last() != '/' ==> joined(root, key) == root.push('/') + key,
        joined(root, seq!['/'] + key) == seq!['/'] + key,
        joined(root, key) == joined(root, other) ==> key == other,
{
    reveal_strlit("/");
    assert(!starts_with(key, "/"@)) by {
        if starts_with(key, "/"@) {
            assert(key.take(1)[0] == '/');
        }
    }
    assert(!starts_with(other, "/"@)) by {
        if starts_with(other, "/"@) {
            assert(other.take(1)[0] == '/');
        }
    }
    assert((seq!['/'] + key).take(1) =~= "/"@);
    if root.len() > 0 {
        assert(root.skip(root.len() - 1)[0] == root.last());
        if root.last() == '/' {
            assert(root.skip(root.len() - 1) =~= "/"@);
        }
    }
    assert(root + "/"@ =~= root.push('/'));
    if root.len() == 0 {
        assert(root + key =~= key);
    }
    if joined(root, key) == joined(root, other) {
        let path = joined(root, key);
        let n = path.len() - key.len();
        assert(key =~= path.skip(n));
        assert(other =~= path.skip(n));
    }
}

/// Where each file is named by its own path, the keys are those paths, each once.
proof fn lemma_keys_of_paths(rels: Seq<Seq<char>>)
    requires
        rels.no_duplicates(),
        forall|rel: Seq<char>| #[trigger]
            rels.contains(rel) && key_of_path(rel) is Some ==> key_of_path(rel) == Some(rel),
    ensures
        keys_of_paths(rels).no_duplicates(),
        forall|k: Seq<char>| #[trigger]
            keys_of_paths(rels).contains(k) <==> rels.contains(k) && key_of_path(k) is Some,
    decreases rels.len(),
{
    reveal(Seq::filter_map);
    if rels.len() > 0 {
        let rest = rels.drop_last();
        let last = rels.last();
        assert(rels =~= rest.push(last));
        assert forall|rel: Seq<char>| #[trigger] rest.contains(rel) && key_of_path(rel) is Some implies key_of_path(
            rel,
        ) == Some(rel) by {
            lemma_push_contains(rest, last, rel);
            assert(rels.contains(rel));
        }
        lemma_keys_of_paths(rest);
        assert(rels.contains(last));
        assert(!rest.contains(last));
        let keys = keys_of_paths(rest);
        let all = keys_of_paths(rels);
        if key_of_path(last) is Some {
            assert(all =~= keys.push(last));
        } else {
            assert(all == keys);
        }
        assert forall|k: Seq<char>| #[trigger] all.contains(k) <==> rels.contains(k) && key_of_path(
            k,
        ) is Some by {
            lemma_push_contains(rest, last, k);
            lemma_push_contains(keys, last, k);
            assert(keys.contains(k) <==> rest.contains(k) && key_of_path(k) is Some);
        }
        assert(!keys.contains(last));
        assert(all.no_duplicates()) by {
            assert forall|i: int, j: int|
                0 <= i < all.len() && 0 <= j < all.len() && i != j implies all[i] != all[j] by {
                if i < keys.len() {
                    assert(keys.contains(keys[i]));
                }
                if j < keys.len() {
                    assert(keys.contains(keys[j]));
                }
            }
        }
    }
}

/// The store on disk lists what the store in memory lists: `local` is what
/// [`LocalObjectStore::keys_for`] gives for the files below the prefix, `memory` what
/// [`crate::object_store::MemObjectStore::list`] gives, and they are the same keys in the same order.
///
/// The prefix is a directory, not itself a key.
pub proof fn law_both_stores_list_alike(
    store: Objects,
    prefix: Seq<char>,
    rels: Seq<Seq<char>>,
    local: Seq<Seq<char>>,
    memory: Seq<Seq<char>>,
)
    requires
        keys_are_paths(store),
        !store.contains_key(prefix),
        on_disk(store, prefix, rels),
        sorted_texts(local),
        local.to_multiset() == keys_of_paths(rels).to_multiset(),
        sorted_texts(memory),
        memory.no_duplicates(),
        forall|k: Seq<char>| #[trigger]
            memory.contains(k) <==> store.contains_key(k) && lists(prefix, k),
    ensures
        local == memory,
{
    broadcast use vstd::seq_lib::group_to_multiset_ensures;

    let keys = keys_of_paths(rels);
    assert forall|rel: Seq<char>| #[trigger] rels.contains(rel) && key_of_path(rel) is Some implies key_of_path(
        rel,
    ) == Some(rel) by {
        law_every_finished_file_is_an_object(rel);
        assert(store.contains_key(rel));
    }
    lemma_keys_of_paths(rels);
    keys.lemma_multiset_has_no_duplicates();
    assert(local.no_duplicates()) by {
        assert forall|x: Seq<char>| local.to_multiset().contains(x) implies local.to_multiset().count(
            x,
        ) == 1 by {
            assert(keys.to_multiset().contains(x));
        }
        local.lemma_multiset_has_no_duplicates_conv();
    }
    assert forall|k: Seq<char>|
        #![trigger local.contains(k)]
        #![trigger memory.contains(k)]
        local.contains(k) <==> memory.contains(k) by {
        assert(local.contains(k) <==> local.to_multiset().count(k) > 0);
        assert(keys.contains(k) <==> keys.to_multiset().count(k) > 0);
        law_every_finished_file_is_an_object(k);
        assert(rels.contains(k) && !is_temporary(k) <==> store.contains_key(k) && starts_with(
            k,
            prefix + "/"@,
        ));
    }
    lemma_sorted_distinct(local);
    lemma_sorted_distinct(memory);
    lemma_strictly_sorted_unique(local, memory);
}

} // verus!
