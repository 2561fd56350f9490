//! The replication substrate: a flat map from keys to objects.
//!
//! A store can put, get, list and delete objects:
//! - a `put` replaces what the key held;
//! - `list(prefix)` gives every key under `prefix`, recursively, as full flat keys, sorted;
//! - a `delete` of a key that is not there is no error.

use vstd::prelude::*;
use vstd::string::*;
use vstd::slice::slice_to_vec;
use crate::error::Error;
use crate::lists::lemma_push_contains;
use crate::order::{
    lemma_insert_keeps_strictly_sorted, lemma_strictly_sorted, lex_lt, locate, sorted_texts,
    strictly_sorted,
};
use crate::text::{has_prefix, same_text, starts_with, texts};

verus! {

/// What a store holds.
pub type Objects = Map<Seq<char>, Seq<u8>>;

/// The keys that `list(prefix)` gives: `prefix` itself and what lies below it.
pub open spec fn lists(prefix: Seq<char>, key: Seq<char>) -> bool {
    key == prefix || starts_with(key, prefix + "/"@)
}

/// What a failed or successful `get` says of whether the key is there: a found object and a
/// not-found error answer the question, any other error is passed on.
pub fn exists_from_get(got: Result<Vec<u8>, Error>) -> (r: Result<bool, Error>)
    ensures
        match got {
            Ok(_) => r == Ok::<bool, Error>(true),
            Err(Error::NotFound(_)) => r == Ok::<bool, Error>(false),
            Err(e) => r == Err::<bool, Error>(e),
        },
{
    match got {
        Ok(_) => Ok(true),
        Err(Error::NotFound(_)) => Ok(false),
        Err(e) => Err(e),
    }
}

/// An in-memory object store for fast tests. Keys are stored verbatim, in lexical order.
pub struct MemObjectStore {
    keys: Vec<String>,
    /// What each of the keys holds.
    values: Vec<Vec<u8>>,
}

/// What the keys hold.
spec fn objects(keys: Seq<Seq<char>>, values: Seq<Vec<u8>>) -> Objects {
    Map::new(|key: Seq<char>| keys.contains(key), |key: Seq<char>| values[keys.index_of(key)]@)
}

/// What is at an index is what the store holds under the key there.
proof fn lemma_object_at(keys: Seq<Seq<char>>, values: Seq<Vec<u8>>, i: int)
    requires
        strictly_sorted(keys),
        0 <= i < keys.len(),
    ensures
        objects(keys, values).contains_key(keys[i]),
        objects(keys, values)[keys[i]] == values[i]@,
{
    assert(keys.contains(keys[i]));
    lemma_strictly_sorted(keys);
}

impl View for MemObjectStore {
    type V = Objects;

    closed spec fn view(&self) -> Objects {
        objects(texts(self.keys@), self.values@)
    }
}

impl MemObjectStore {
    #[verifier::type_invariant]
    spec fn well_formed(self) -> bool {
        strictly_sorted(texts(self.keys@)) && self.keys@.len() == self.values@.len()
    }

    /// An empty store.
    pub fn new() -> (r: Self)
        ensures
            r@ == Objects::empty(),
    {
        let r = MemObjectStore { keys: Vec::new(), values: Vec::new() };
        assert(r@ =~= Objects::empty());
        r
    }

    /// Put `bytes` under `key`, in place of what it held.
    pub fn put(&mut self, key: &str, bytes: Vec<u8>) -> (r: Result<(), Error>)
        ensures
            r is Ok,
            final(self)@ == old(self)@.insert(key@, bytes@),
    {
        proof {
            use_type_invariant(&*self);
        }
        let ghost old_keys = texts(self.keys@);
        let ghost old_values = self.values@;
        let (here, at) = locate(&self.keys, key);
        let mut store = MemObjectStore { keys: Vec::new(), values: Vec::new() };
        std::mem::swap(self, &mut store);
        let MemObjectStore { mut keys, mut values } = store;
        if here {
            values.set(at, bytes);
        } else {
            keys.insert(at, key.to_owned());
            values.insert(at, bytes);
        }
        proof {
            let now = texts(keys@);
            if !here {
                lemma_insert_keeps_strictly_sorted(old_keys, at as int, key@);
                assert(now =~= old_keys.insert(at as int, key@));
            }
            let was = objects(old_keys, old_values);
            let is = objects(now, values@);
            lemma_object_at(now, values@, at as int);
            assert forall|k: Seq<char>| #[trigger] is.contains_key(k) implies is[k] == was.insert(
                key@,
                bytes@,
            )[k] by {
                if k != key@ {
                    let i = old_keys.index_of(k);
                    lemma_object_at(old_keys, old_values, i);
                    let j = if here || i < at { i } else { i + 1 };
                    assert(now[j] == k);
                    lemma_object_at(now, values@, j);
                }
            }
            assert(is =~= was.insert(key@, bytes@));
        }
        *self = MemObjectStore { keys, values };
        Ok(())
    }

    /// What the store holds under `key`.
    pub fn get(&self, key: &str) -> (r: Result<Vec<u8>, Error>)
        ensures
            match r {
                Ok(bytes) => self@.contains_key(key@) && bytes@ == self@[key@],
                Err(e) => !self@.contains_key(key@) && (e matches Error::NotFound(k) && k@ == key@),
            },
    {
        proof {
            use_type_invariant(self);
        }
        let (here, at) = locate(&self.keys, key);
        if here {
            proof {
                lemma_object_at(texts(self.keys@), self.values@, at as int);
            }
            Ok(slice_to_vec(self.values[at].as_slice()))
        } else {
            Err(Error::NotFound(key.to_owned()))
        }
    }

    /// Whether the store holds anything under `key`.
    pub fn contains(&self, key: &str) -> (r: Result<bool, Error>)
        ensures
            r == Ok::<bool, Error>(self@.contains_key(key@)),
    {
        proof {
            use_type_invariant(self);
        }
        Ok(locate(&self.keys, key).0)
    }

    /// Remove `key`, if it is there.
    pub fn delete(&mut self, key: &str) -> (r: Result<(), Error>)
        ensures
            r is Ok,
            final(self)@ == old(self)@.remove(key@),
    {
        proof {
            use_type_invariant(&*self);
        }
        let ghost old_keys = texts(self.keys@);
        let ghost old_values = self.values@;
        let (here, at) = locate(&self.keys, key);
        if !here {
            assert(self@ =~= old(self)@.remove(key@));
            return Ok(());
        }
        let mut store = MemObjectStore { keys: Vec::new(), values: Vec::new() };
        std::mem::swap(self, &mut store);
        let MemObjectStore { mut keys, mut values } = store;
        keys.remove(at);
        values.remove(at);
        proof {
            let now = texts(keys@);
            assert(now =~= old_keys.remove(at as int));
            lemma_strictly_sorted(old_keys);
            let was = objects(old_keys, old_values);
            let is = objects(now, values@);
            assert(strictly_sorted(now));
            assert forall|k: Seq<char>| #[trigger] is.contains_key(k) <==> was.remove(
                key@,
            ).contains_key(k) by {
                if now.contains(k) {
                    let i = now.index_of(k);
                    assert(old_keys[if i < at { i } else { i + 1 }] == k);
                }
                if old_keys.contains(k) && k != key@ {
                    let i = old_keys.index_of(k);
                    assert(now[if i < at { i } else { i - 1 }] == k);
                }
            }
            assert forall|k: Seq<char>| #[trigger] is.contains_key(k) implies is[k] == was.remove(
                key@,
            )[k] by {
                let i = now.index_of(k);
                lemma_object_at(now, values@, i);
                lemma_object_at(old_keys, old_values, if i < at { i } else { i + 1 });
            }
            assert(is =~= was.remove(key@));
        }
        *self = MemObjectStore { keys, values };
        Ok(())
    }

    /// Every key under `prefix`, recursively, as full keys, sorted.
    pub fn list(&self, prefix: &str) -> (r: Result<Vec<String>, Error>)
        ensures
            r matches Ok(keys) && {
                &&& sorted_texts(texts(keys@))
                &&& texts(keys@).no_duplicates()
                &&& forall|k: Seq<char>| #[trigger]
                    texts(keys@).contains(k) <==> self@.contains_key(k) && lists(prefix@, k)
            },
    {
        proof {
            use_type_invariant(self);
        }
        let mut needle = prefix.to_owned();
        needle.append("/");
        let mut out: Vec<String> = Vec::new();
        let mut i: usize = 0;
        let ghost all = texts(self.keys@);
        while i < self.keys.len()
            invariant
                i <= self.keys.len(),
                all == texts(self.keys@),
                strictly_sorted(all),
                needle@ == prefix@ + "/"@,
                strictly_sorted(texts(out@)),
                forall|k: Seq<char>| #[trigger]
                    texts(out@).contains(k) <==> all.take(i as int).contains(k) && lists(prefix@, k),
            decreases self.keys.len() - i,
        {
            let key = &self.keys[i];
            let ghost before = texts(out@);
            assert(all.take(i + 1) =~= all.take(i as int).push(key@));
            if same_text(key.as_str(), prefix) || has_prefix(key.as_str(), needle.as_str()) {
                out.push(key.clone());
                proof {
                    let after = texts(out@);
                    assert(after =~= before.push(key@));
                    assert forall|a: int, b: int| 0 <= a < b < after.len() implies lex_lt(
                        #[trigger] after[a],
                        #[trigger] after[b],
                    ) by {
                        if b == before.len() {
                            assert(before.contains(before[a]));
                            let j = all.take(i as int).index_of(before[a]);
                            assert(lex_lt(all[j], all[i as int]));
                        } else {
                            assert(lex_lt(before[a], before[b]));
                        }
                    }
                }
            }
            proof {
                let after = texts(out@);
                assert forall|k: Seq<char>| #[trigger]
                    after.contains(k) <==> all.take(i + 1).contains(k) && lists(prefix@, k) by {
                    lemma_push_contains(all.take(i as int), key@, k);
                    lemma_push_contains(before, key@, k);
                    assert(before.contains(k) <==> all.take(i as int).contains(k) && lists(
                        prefix@,
                        k,
                    ));
                }
            }
            i += 1;
        }
        proof {
            assert(all.take(i as int) =~= all);
            lemma_strictly_sorted(texts(out@));
        }
        Ok(out)
    }
}

/// A listing gives the prefix itself and whatever stands behind it and a slash, at any depth; a key
/// that merely begins alike is not below the prefix.
pub proof fn law_a_listing_is_recursive(prefix: Seq<char>, rest: Seq<char>, key: Seq<char>)
    ensures
        lists(prefix, prefix),
        lists(prefix, prefix + "/"@ + rest),
        lists(prefix, key) && key != prefix ==> key == prefix + "/"@ + key.skip(
            prefix.len() as int + 1,
        ),
        rest.len() > 0 && rest[0] != '/' ==> !lists(prefix, prefix + rest),
{
    reveal_strlit("/");
    let dir = prefix + "/"@;
    assert((dir + rest).take(dir.len() as int) =~= dir);
    if lists(prefix, key) && key != prefix {
        assert(key =~= key.take(dir.len() as int) + key.skip(dir.len() as int));
    }
    if rest.len() > 0 && rest[0] != '/' {
        let other = prefix + rest;
        assert(other[prefix.len() as int] == rest[0]);
        assert(other.len() != prefix.len());
        if starts_with(other, dir) {
            assert(other.take(dir.len() as int)[prefix.len() as int] == '/');
        }
    }
}

} // verus!
