//! Lists: copies, element for element, and membership.

use vstd::prelude::*;
use vstd::string::*;
use vstd::slice::slice_to_vec;
use crate::text::texts;
use crate::types::{contents, PointerFile};

verus! {

/// What a sequence with one more element contains.
pub proof fn lemma_push_contains<T>(s: Seq<T>, last: T, x: T)
    ensures
        s.push(last).contains(x) <==> s.contains(x) || x == last,
{
    if s.push(last).contains(x) && x != last {
        let i = s.push(last).index_of(x);
        assert(s[i] == x);
    }
    if s.contains(x) {
        let i = s.index_of(x);
        assert(s.push(last)[i] == x);
    }
    assert(s.push(last)[s.len() as int] == last);
}

/// A copy of a list of strings.
pub fn copy_texts(v: &Vec<String>) -> (r: Vec<String>)
    ensures
        texts(r@) == texts(v@),
{
    let mut out: Vec<String> = Vec::new();
    let mut i: usize = 0;
    while i < v.len()
        invariant
            i <= v.len(),
            texts(out@) == texts(v@).take(i as int),
        decreases v.len() - i,
    {
        let ghost before = texts(out@);
        out.push(v[i].clone());
        assert(texts(out@) =~= before.push(v[i as int]@));
        assert(texts(v@).take(i + 1) =~= texts(v@).take(i as int).push(v[i as int]@));
        i += 1;
    }
    assert(texts(v@).take(i as int) =~= texts(v@));
    out
}

/// A copy of a list of pointer files.
pub fn copy_pointers(v: &Vec<PointerFile>) -> (r: Vec<PointerFile>)
    ensures
        contents(r@) == contents(v@),
{
    let mut out: Vec<PointerFile> = Vec::new();
    let mut i: usize = 0;
    while i < v.len()
        invariant
            i <= v.len(),
            contents(out@) == contents(v@).take(i as int),
        decreases v.len() - i,
    {
        let ghost before = contents(out@);
        let p = PointerFile { path: v[i].path.clone(), bytes: slice_to_vec(v[i].bytes.as_slice()) };
        out.push(p);
        assert(contents(out@) =~= before.push(v[i as int]@));
        assert(contents(v@).take(i + 1) =~= contents(v@).take(i as int).push(v[i as int]@));
        i += 1;
    }
    assert(contents(v@).take(i as int) =~= contents(v@));
    out
}

} // verus!
