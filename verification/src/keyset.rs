//! A set of keys, held in lexical order so that a lookup is a binary search.

use vstd::prelude::*;
use vstd::string::*;
use crate::order::{lemma_insert_keeps_strictly_sorted, locate, strictly_sorted};
use crate::text::texts;

verus! {

/// A set of keys.
pub struct KeySet {
    keys: Vec<String>,
}

impl View for KeySet {
    type V = Set<Seq<char>>;

    closed spec fn view(&self) -> Set<Seq<char>> {
        texts(self.keys@).to_set()
    }
}

impl KeySet {
    #[verifier::type_invariant]
    spec fn well_formed(self) -> bool {
        strictly_sorted(texts(self.keys@))
    }

    /// The empty set.
    pub fn new() -> (r: Self)
        ensures
            r@ == Set::<Seq<char>>::empty(),
    {
        let r = KeySet { keys: Vec::new() };
        assert(r@ =~= Set::<Seq<char>>::empty());
        r
    }

    /// Whether the set holds `key`.
    pub fn contains(&self, key: &str) -> (r: bool)
        ensures
            r == self@.contains(key@),
    {
        proof {
            use_type_invariant(self);
        }
        locate(&self.keys, key).0
    }

    /// Add `key` to the set.
    pub fn insert(&mut self, key: &str)
        ensures
            final(self)@ == old(self)@.insert(key@),
    {
        proof {
            use_type_invariant(&*self);
        }
        let ghost keys = texts(self.keys@);
        let (here, at) = locate(&self.keys, key);
        if here {
            assert(self@ =~= old(self)@.insert(key@));
            return;
        }
        let mut list: Vec<String> = Vec::new();
        std::mem::swap(&mut self.keys, &mut list);
        list.insert(at, key.to_owned());
        proof {
            lemma_insert_keeps_strictly_sorted(keys, at as int, key@);
            assert(texts(list@) =~= keys.insert(at as int, key@));
            assert(texts(list@).to_set() =~= keys.to_set().insert(key@));
        }
        self.keys = list;
    }
}

} // verus!
