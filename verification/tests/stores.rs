//! The in-memory store, the naming rules of the filesystem-backed one, and what a `get` says of
//! whether a key is there.

use fjallstream::listing::ListStep;
use fjallstream::local_store::LocalObjectStore;
use fjallstream::object_store::{exists_from_get, MemObjectStore};
use fjallstream::Error;

#[test]
fn mem_object_store_conformance() {
    let mut store = MemObjectStore::new();

    // put / get round-trip, including nested keys.
    store.put("a/b/c.txt", b"hello".to_vec()).unwrap();
    assert_eq!(store.get("a/b/c.txt").unwrap(), b"hello");

    // exists.
    assert!(store.contains("a/b/c.txt").unwrap());
    assert!(!store.contains("a/b/missing").unwrap());

    // not found is a typed error.
    assert!(matches!(store.get("nope"), Err(Error::NotFound(_))));

    // list is RECURSIVE and returns full flat keys under the prefix, sorted.
    store.put("p/x/1", b"1".to_vec()).unwrap();
    store.put("p/y/2", b"2".to_vec()).unwrap();
    store.put("p/3", b"3".to_vec()).unwrap();
    let keys = store.list("p").unwrap();
    assert_eq!(keys, vec!["p/3".to_string(), "p/x/1".to_string(), "p/y/2".to_string()]);

    // a sibling prefix must not leak in.
    store.put("pother/9", b"9".to_vec()).unwrap();
    assert_eq!(store.list("p").unwrap().len(), 3, "list('p') must not match 'pother/...'");

    // overwrite.
    store.put("p/3", b"33".to_vec()).unwrap();
    assert_eq!(store.get("p/3").unwrap(), b"33");

    // delete is idempotent; listing a missing prefix is empty.
    store.delete("p/3").unwrap();
    assert!(!store.contains("p/3").unwrap());
    store.delete("p/3").unwrap();
    assert!(store.list("does/not/exist").unwrap().is_empty());
}

#[test]
fn a_key_that_is_the_prefix_is_listed() {
    let mut store = MemObjectStore::new();
    store.put("p", vec![1]).unwrap();
    store.put("p/q", vec![2]).unwrap();
    store.put("p-q", vec![3]).unwrap();
    assert_eq!(store.list("p").unwrap(), vec!["p", "p/q"]);
}

#[test]
fn a_missing_key_is_named() {
    let store = MemObjectStore::new();
    assert!(matches!(store.get("a/b"), Err(Error::NotFound(key)) if key == "a/b"));
}

#[test]
fn a_get_says_whether_the_key_is_there() {
    assert!(exists_from_get(Ok(vec![])).unwrap());
    assert!(!exists_from_get(Err(Error::NotFound("k".into()))).unwrap());
    let other = exists_from_get(Err(Error::Store("down".into())));
    assert!(matches!(other, Err(Error::Store(what)) if what == "down"));
}

#[test]
fn keys_map_to_nested_paths() {
    let store = LocalObjectStore::new("/bucket");
    assert_eq!(store.path_for("a/b"), "/bucket/a/b");
    assert_eq!(store.tmp_path_for("a/b"), "/bucket/a/b.fjallstream-tmp");
    assert_eq!(LocalObjectStore::new("/bucket/").path_for("a"), "/bucket/a");
    assert_eq!(LocalObjectStore::new("").path_for("a"), "a");
    assert_eq!(store.path_for("/a"), "/a");
}

#[test]
fn unfinished_objects_are_not_listed() {
    let rels: Vec<String> = ["b/2", "a\\1", "b/2.fjallstream-tmp", "a"].iter().map(|s| s.to_string()).collect();
    assert_eq!(LocalObjectStore::keys_for(&rels), vec!["a", "a/1", "b/2"]);
    assert_eq!(LocalObjectStore::key_for("x.fjallstream-tmp"), None);
    assert_eq!(LocalObjectStore::key_for("x.fjallstream-tmp2"), Some("x.fjallstream-tmp2".into()));
}

#[test]
fn both_stores_list_alike() {
    let keys = ["p/b", "p/a/2", "p/a/1", "q/1", "p2/1"];
    let mut store = MemObjectStore::new();
    for key in keys {
        store.put(key, vec![]).unwrap();
    }
    // The files below the directory `p`, as a walk may come upon them.
    let rels: Vec<String> =
        ["p/b", "p/b.fjallstream-tmp", "p/a/1", "p/a/2"].iter().map(|s| s.to_string()).collect();
    assert_eq!(LocalObjectStore::keys_for(&rels), store.list("p").unwrap());
}

/// The keys below `prefix` and the directories that were read, when these are the files on disk.
fn descend(prefix: &str, files: &[&str]) -> (Vec<String>, Vec<String>) {
    let mut read = vec![];
    let mut step = LocalObjectStore::new("/bucket").list(prefix);
    loop {
        let mut dir = match step {
            ListStep::ReadDir(dir) => dir,
            ListStep::Done(keys) => return (keys, read),
        };
        let inside = if dir.dir().is_empty() { String::new() } else { format!("{}/", dir.dir()) };
        let mut seen: Vec<String> = vec![];
        for file in files {
            let Some(rest) = file.strip_prefix(inside.as_str()) else { continue };
            match rest.split_once('/') {
                Some((name, _)) => {
                    let sub = format!("{inside}{name}");
                    if !seen.contains(&sub) {
                        dir.entry(&sub, true);
                        seen.push(sub);
                    }
                }
                None => dir.entry(file, false),
            }
        }
        read.push(dir.dir().clone());
        step = dir.done();
    }
}

#[test]
fn a_listing_comes_upon_every_file() {
    let files =
        ["p/b", "p/b.fjallstream-tmp", "p/a/2", "p/a/1", "p/a/x/y/z", "q/1", "p2/1", "top"];
    let (keys, read) = descend("p", &files);
    assert_eq!(keys, vec!["p/a/1", "p/a/2", "p/a/x/y/z", "p/b"]);
    assert_eq!(read, vec!["p", "p/a", "p/a/x", "p/a/x/y"]);

    let mut store = MemObjectStore::new();
    for key in files.iter().filter(|f| !f.ends_with("tmp")) {
        store.put(key, vec![]).unwrap();
    }
    assert_eq!(keys, store.list("p").unwrap());

    // The root holds everything; where there is nothing, one directory is looked at.
    assert_eq!(descend("", &files).0.len(), 7);
    assert_eq!(descend("none", &files), (vec![], vec!["none".to_string()]));
}
