//! Text as sequences of characters: prefixes, suffixes, replacement, path components.

use vstd::prelude::*;
use vstd::string::*;

verus! {

/// `String::push` appends one character to the end of the string.
pub assume_specification[ String::push ](s: &mut String, ch: char)
    ensures
        final(s)@ == old(s)@.push(ch),
;

/// The character sequences of a list of strings.
pub open spec fn texts(v: Seq<String>) -> Seq<Seq<char>> {
    Seq::new(v.len(), |i: int| v[i]@)
}

pub open spec fn starts_with(s: Seq<char>, prefix: Seq<char>) -> bool {
    prefix.len() <= s.len() && s.take(prefix.len() as int) == prefix
}

pub open spec fn ends_with(s: Seq<char>, suffix: Seq<char>) -> bool {
    suffix.len() <= s.len() && s.skip(s.len() - suffix.len()) == suffix
}

/// The characters of `s`, in order.
pub fn to_chars(s: &str) -> (r: Vec<char>)
    ensures
        r@ == s@,
{
    let mut out: Vec<char> = Vec::new();
    for c in it: s.chars()
        invariant
            it.seq() == s@,
            out@ == s@.take(it.index() as int),
    {
        out.push(c);
        assert(s@.take(it.index() as int).push(c) =~= s@.take(it.index() + 1));
    }
    assert(s@.take(s@.len() as int) =~= s@);
    out
}

/// Whether the two strings hold the same characters.
pub fn same_text(a: &str, b: &str) -> (r: bool)
    ensures
        r == (a@ == b@),
{
    let mut x = a.chars();
    let mut y = b.chars();
    let ghost mut done: Seq<char> = Seq::empty();
    assert(a@ =~= done + vstd::std_specs::iter::IteratorSpec::remaining(&x));
    assert(b@ =~= done + vstd::std_specs::iter::IteratorSpec::remaining(&y));
    loop
        invariant
            a@ == done + vstd::std_specs::iter::IteratorSpec::remaining(&x),
            b@ == done + vstd::std_specs::iter::IteratorSpec::remaining(&y),
            vstd::std_specs::iter::IteratorSpec::decrease(&x) is Some,
        decreases vstd::std_specs::iter::IteratorSpec::decrease(&x)->0,
    {
        let ghost xs = vstd::std_specs::iter::IteratorSpec::remaining(&x);
        let ghost ys = vstd::std_specs::iter::IteratorSpec::remaining(&y);
        match (x.next(), y.next()) {
            (None, None) => {
                assert(xs =~= ys);
                return true;
            },
            (Some(c), Some(d)) => {
                if c != d {
                    assert(a@[done.len() as int] == c && b@[done.len() as int] == d);
                    return false;
                }
                proof {
                    assert(done + xs =~= done.push(c) + xs.drop_first());
                    assert(done + ys =~= done.push(c) + ys.drop_first());
                    done = done.push(c);
                }
            },
            _ => {
                assert(a@.len() != b@.len());
                return false;
            },
        }
    }
}

/// Whether `s` begins with `prefix`.
pub fn has_prefix(s: &str, prefix: &str) -> (r: bool)
    ensures
        r == starts_with(s@, prefix@),
{
    let a = to_chars(s);
    let b = to_chars(prefix);
    if a.len() < b.len() {
        return false;
    }
    let mut i: usize = 0;
    while i < b.len()
        invariant
            a@ == s@,
            b@ == prefix@,
            b.len() <= a.len(),
            i <= b.len(),
            forall|j: int| 0 <= j < i ==> a@[j] == b@[j],
        decreases b.len() - i,
    {
        if a[i] != b[i] {
            assert(s@.take(prefix@.len() as int)[i as int] != prefix@[i as int]);
            return false;
        }
        i += 1;
    }
    assert(s@.take(prefix@.len() as int) =~= prefix@);
    true
}

/// Whether `s` ends with `suffix`.
pub fn has_suffix(s: &str, suffix: &str) -> (r: bool)
    ensures
        r == ends_with(s@, suffix@),
{
    let a = to_chars(s);
    let b = to_chars(suffix);
    if a.len() < b.len() {
        return false;
    }
    let off: usize = a.len() - b.len();
    let mut i: usize = 0;
    while i < b.len()
        invariant
            a@ == s@,
            b@ == suffix@,
            b.len() <= a.len(),
            off == a.len() - b.len(),
            i <= b.len(),
            forall|j: int| 0 <= j < i ==> a@[off + j] == b@[j],
        decreases b.len() - i,
    {
        if a[off + i] != b[i] {
            assert(s@.skip(s@.len() - suffix@.len())[i as int] != suffix@[i as int]);
            return false;
        }
        i += 1;
    }
    assert(s@.skip(s@.len() - suffix@.len()) =~= suffix@);
    true
}

/// `s` with every `from` turned into `to`.
pub open spec fn replaced(s: Seq<char>, from: char, to: char) -> Seq<char> {
    Seq::new(s.len(), |i: int| if s[i] == from { to } else { s[i] })
}

/// `s` with every `from` turned into `to`.
pub fn replace_char(s: &str, from: char, to: char) -> (r: String)
    ensures
        r@ == replaced(s@, from, to),
{
    let mut out = String::new();
    for c in it: s.chars()
        invariant
            it.seq() == s@,
            out@ == replaced(s@, from, to).take(it.index() as int),
    {
        if c == from {
            out.push(to);
        } else {
            out.push(c);
        }
        assert(out@ =~= replaced(s@, from, to).take(it.index() + 1));
    }
    assert(replaced(s@, from, to).take(s@.len() as int) =~= replaced(s@, from, to));
    out
}

/// The part of `s` behind its last `sep`: all of `s` where there is none.
pub open spec fn after_last(s: Seq<char>, sep: char) -> Seq<char>
    decreases s.len(),
{
    if s.len() == 0 || s.last() == sep {
        Seq::empty()
    } else {
        after_last(s.drop_last(), sep).push(s.last())
    }
}

/// Where a suffix holds no separator and stands behind one, it is what `after_last` gives.
pub proof fn lemma_after_last(head: Seq<char>, tail: Seq<char>, sep: char)
    requires
        !tail.contains(sep),
    ensures
        after_last(head.push(sep) + tail, sep) == tail,
    decreases tail.len(),
{
    let s = head.push(sep) + tail;
    if tail.len() == 0 {
        assert(s.last() == sep);
        assert(tail =~= Seq::empty());
    } else {
        assert(tail.contains(tail.last()));
        assert(s.drop_last() =~= head.push(sep) + tail.drop_last());
        assert forall|i: int| 0 <= i < tail.drop_last().len() implies tail.drop_last()[i] != sep by {
            assert(tail.contains(tail[i]));
        }
        lemma_after_last(head, tail.drop_last(), sep);
        assert(tail.drop_last().push(tail.last()) =~= tail);
    }
}

} // verus!
