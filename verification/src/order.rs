//! Lexicographic order of text, and sorting by it.

use vstd::prelude::*;
use vstd::string::*;
use crate::text::{same_text, texts};

verus! {

/// Lexicographic order on character sequences. Strings in Rust compare byte-wise, which orders
/// them by code point, so this is the order of `str`.
pub open spec fn lex_lt(a: Seq<char>, b: Seq<char>) -> bool
    decreases a.len(),
{
    if b.len() == 0 {
        false
    } else if a.len() == 0 {
        true
    } else if a[0] != b[0] {
        (a[0] as int) < (b[0] as int)
    } else {
        lex_lt(a.drop_first(), b.drop_first())
    }
}

fn code_point(c: char) -> (r: u32)
    ensures
        r as int == c as int,
{
    c as u32
}

/// Whether `a` comes before `b` in lexicographic order.
pub fn precedes(a: &str, b: &str) -> (r: bool)
    ensures
        r == lex_lt(a@, b@),
{
    let mut x = a.chars();
    let mut y = b.chars();
    loop
        invariant
            lex_lt(a@, b@) == lex_lt(
                vstd::std_specs::iter::IteratorSpec::remaining(&x),
                vstd::std_specs::iter::IteratorSpec::remaining(&y),
            ),
            vstd::std_specs::iter::IteratorSpec::decrease(&x) is Some,
        decreases vstd::std_specs::iter::IteratorSpec::decrease(&x)->0,
    {
        match (x.next(), y.next()) {
            (_, None) => { return false; }
            (None, Some(_)) => { return true; }
            (Some(c), Some(d)) => {
                if c != d {
                    return code_point(c) < code_point(d);
                }
            }
        }
    }
}

/// No text in the sequence comes before an earlier one.
pub open spec fn sorted_texts(s: Seq<Seq<char>>) -> bool {
    forall|i: int, j: int| 0 <= i < j < s.len() ==> !lex_lt(#[trigger] s[j], #[trigger] s[i])
}

/// No text comes before itself.
pub proof fn lemma_lex_irreflexive(a: Seq<char>)
    ensures
        !lex_lt(a, a),
    decreases a.len(),
{
    if a.len() > 0 {
        lemma_lex_irreflexive(a.drop_first());
    }
}

/// The order is transitive.
pub proof fn lemma_lex_transitive(a: Seq<char>, b: Seq<char>, c: Seq<char>)
    requires
        lex_lt(a, b),
        lex_lt(b, c),
    ensures
        lex_lt(a, c),
    decreases a.len(),
{
    if a.len() > 0 && a[0] == b[0] && b[0] == c[0] {
        lemma_lex_transitive(a.drop_first(), b.drop_first(), c.drop_first());
    }
}

/// Of two different texts one comes before the other.
pub proof fn lemma_lex_total(a: Seq<char>, b: Seq<char>)
    ensures
        a == b || lex_lt(a, b) || lex_lt(b, a),
    decreases a.len(),
{
    if a.len() > 0 && b.len() > 0 && a[0] == b[0] {
        lemma_lex_total(a.drop_first(), b.drop_first());
        if a.drop_first() == b.drop_first() {
            assert(a =~= seq![a[0]] + a.drop_first());
            assert(b =~= seq![b[0]] + b.drop_first());
        }
    } else if a.len() > 0 && b.len() > 0 {
        assert((a[0] as int) != (b[0] as int));
        assert(lex_lt(a, b) || lex_lt(b, a));
    } else if a.len() == 0 && b.len() == 0 {
        assert(a =~= b);
    }
}

/// A common head does not change the order.
pub proof fn lemma_lex_common_head(head: Seq<char>, a: Seq<char>, b: Seq<char>)
    ensures
        lex_lt(head + a, head + b) == lex_lt(a, b),
    decreases head.len(),
{
    if head.len() == 0 {
        assert(head + a =~= a);
        assert(head + b =~= b);
    } else {
        assert((head + a).drop_first() =~= head.drop_first() + a);
        assert((head + b).drop_first() =~= head.drop_first() + b);
        lemma_lex_common_head(head.drop_first(), a, b);
    }
}

/// The order of two texts of the same length that differ is not changed by what follows them.
pub proof fn lemma_lex_common_len(a: Seq<char>, b: Seq<char>, x: Seq<char>, y: Seq<char>)
    requires
        a.len() == b.len(),
        a != b,
    ensures
        lex_lt(a + x, b + y) == lex_lt(a, b),
    decreases a.len(),
{
    if a.len() == 0 {
        assert(a =~= b);
    } else {
        assert((a + x).drop_first() =~= a.drop_first() + x);
        assert((b + y).drop_first() =~= b.drop_first() + y);
        if a[0] == b[0] {
            if a.drop_first() == b.drop_first() {
                assert(a =~= seq![a[0]] + a.drop_first());
                assert(b =~= seq![b[0]] + b.drop_first());
            }
            lemma_lex_common_len(a.drop_first(), b.drop_first(), x, y);
        }
    }
}

/// Where to insert `key` into sorted strings: behind those that it does not precede.
fn insertion_point(sorted: &Vec<String>, key: &str) -> (at: usize)
    requires
        sorted_texts(texts(sorted@)),
    ensures
        at <= sorted.len(),
        at > 0 ==> !lex_lt(key@, texts(sorted@)[at - 1]),
        forall|j: int| at <= j < sorted.len() ==> lex_lt(key@, #[trigger] texts(sorted@)[j]),
{
    let ghost all = texts(sorted@);
    let mut low: usize = 0;
    let mut high: usize = sorted.len();
    while low < high
        invariant
            low <= high <= sorted.len(),
            all == texts(sorted@),
            sorted_texts(all),
            low > 0 ==> !lex_lt(key@, all[low - 1]),
            forall|j: int| high <= j < all.len() ==> lex_lt(key@, #[trigger] all[j]),
        decreases high - low,
    {
        let mid: usize = low + (high - low) / 2;
        if precedes(key, sorted[mid].as_str()) {
            assert forall|j: int| mid <= j < all.len() implies lex_lt(key@, #[trigger] all[j]) by {
                assert(lex_lt(key@, all[mid as int]));
                if mid < j {
                    assert(!lex_lt(all[j], all[mid as int]));
                    lemma_lex_total(all[mid as int], all[j]);
                    if all[mid as int] != all[j] {
                        lemma_lex_transitive(key@, all[mid as int], all[j]);
                    }
                }
            }
            high = mid;
        } else {
            low = mid + 1;
        }
    }
    low
}

/// The strings of `keys` in lexicographic order.
pub fn sort_texts(keys: Vec<String>) -> (r: Vec<String>)
    ensures
        sorted_texts(texts(r@)),
        texts(r@).to_multiset() == texts(keys@).to_multiset(),
        r@.len() == keys@.len(),
{
    broadcast use vstd::multiset::group_multiset_axioms;
    let ghost all = texts(keys@);
    let mut out: Vec<String> = Vec::new();
    let mut i: usize = 0;
    assert(texts(out@) =~= all.take(0));
    while i < keys.len()
        invariant
            i <= keys.len(),
            all == texts(keys@),
            sorted_texts(texts(out@)),
            texts(out@).to_multiset() == all.take(i as int).to_multiset(),
            out@.len() == i,
        decreases keys.len() - i,
    {
        let ghost placed = texts(out@);
        let key: String = keys[i].clone();
        let at: usize = insertion_point(&out, key.as_str());
        out.insert(at, key);
        proof {
            assert(all.take(i + 1) =~= all.take(i as int).push(key@));
            assert(texts(out@) =~= placed.insert(at as int, key@));
            vstd::seq_lib::to_multiset_insert(placed, at as int, key@);
            vstd::seq_lib::to_multiset_build(all.take(i as int), key@);
            lemma_insert_keeps_sorted(placed, at as int, key@);
        }
        i += 1;
    }
    assert(all.take(i as int) =~= all);
    out
}

/// Inserting a text behind those that it does not precede and before those that it precedes
/// keeps a sequence sorted.
pub proof fn lemma_insert_keeps_sorted(s: Seq<Seq<char>>, at: int, key: Seq<char>)
    requires
        sorted_texts(s),
        0 <= at <= s.len(),
        at > 0 ==> !lex_lt(key, s[at - 1]),
        forall|j: int| at <= j < s.len() ==> lex_lt(key, #[trigger] s[j]),
    ensures
        sorted_texts(s.insert(at, key)),
{
    let t = s.insert(at, key);
    assert forall|i: int, j: int| 0 <= i < j < t.len() implies !lex_lt(#[trigger] t[j], #[trigger] t[i]) by {
        if i == at {
            assert(t[j] == s[j - 1]);
            if lex_lt(t[j], t[i]) {
                lemma_lex_transitive(key, t[j], key);
                lemma_lex_irreflexive(key);
            }
        } else if j == at {
            assert(t[i] == s[i]);
            if lex_lt(key, s[i]) {
                if i < at - 1 {
                    assert(!lex_lt(s[at - 1], s[i]));
                    lemma_lex_total(s[at - 1], s[i]);
                    if s[at - 1] != s[i] {
                        lemma_lex_transitive(key, s[i], s[at - 1]);
                    }
                }
            }
        } else {
            let i2 = if i < at { i } else { i - 1 };
            let j2 = if j < at { j } else { j - 1 };
            assert(t[i] == s[i2]);
            assert(t[j] == s[j2]);
        }
    }
}

/// The texts come in strictly ascending order.
pub open spec fn strictly_sorted(s: Seq<Seq<char>>) -> bool {
    forall|i: int, j: int| 0 <= i < j < s.len() ==> lex_lt(#[trigger] s[i], #[trigger] s[j])
}

/// In strictly ascending order no text comes twice, and none before an earlier one.
pub proof fn lemma_strictly_sorted(s: Seq<Seq<char>>)
    requires
        strictly_sorted(s),
    ensures
        s.no_duplicates(),
        sorted_texts(s),
{
    assert forall|i: int, j: int| 0 <= i < s.len() && 0 <= j < s.len() && i != j implies s[i] != s[j] by {
        lemma_lex_irreflexive(s[i]);
        if i < j {
            assert(lex_lt(s[i], s[j]));
        } else {
            assert(lex_lt(s[j], s[i]));
        }
    }
    assert forall|i: int, j: int| 0 <= i < j < s.len() implies !lex_lt(#[trigger] s[j], #[trigger] s[i]) by {
        if lex_lt(s[j], s[i]) {
            lemma_lex_transitive(s[i], s[j], s[i]);
            lemma_lex_irreflexive(s[i]);
        }
    }
}

/// Sorted texts of which none comes twice are in strictly ascending order.
pub proof fn lemma_sorted_distinct(s: Seq<Seq<char>>)
    requires
        sorted_texts(s),
        s.no_duplicates(),
    ensures
        strictly_sorted(s),
{
    assert forall|i: int, j: int| 0 <= i < j < s.len() implies lex_lt(#[trigger] s[i], #[trigger] s[j]) by {
        lemma_lex_total(s[i], s[j]);
    }
}

/// There is one way to put texts in strictly ascending order.
pub proof fn lemma_strictly_sorted_unique(a: Seq<Seq<char>>, b: Seq<Seq<char>>)
    requires
        strictly_sorted(a),
        strictly_sorted(b),
        forall|k: Seq<char>|
            #![trigger a.contains(k)]
            #![trigger b.contains(k)]
            a.contains(k) <==> b.contains(k),
    ensures
        a == b,
    decreases a.len(),
{
    if a.len() == 0 {
        if b.len() > 0 {
            assert(b.contains(b[0]));
        }
        assert(a =~= b);
    } else {
        assert(a.contains(a.last()));
        assert(b.len() > 0);
        assert(b.contains(b.last()));
        let i = b.index_of(a.last());
        let j = a.index_of(b.last());
        if a.last() != b.last() {
            assert(lex_lt(b[i], b[b.len() - 1]));
            assert(lex_lt(a[j], a[a.len() - 1]));
            lemma_lex_transitive(a.last(), b.last(), a.last());
            lemma_lex_irreflexive(a.last());
        }
        lemma_strictly_sorted(a);
        lemma_strictly_sorted(b);
        let x = a.drop_last();
        let y = b.drop_last();
        assert forall|k: Seq<char>|
            #![trigger x.contains(k)]
            #![trigger y.contains(k)]
            x.contains(k) <==> y.contains(k) by {
            if x.contains(k) {
                let m = x.index_of(k);
                assert(a[m] == k);
                assert(a.contains(k));
                let l = b.index_of(k);
                assert(l < b.len() - 1);
                assert(y[l] == k);
            }
            if y.contains(k) {
                let m = y.index_of(k);
                assert(b[m] == k);
                assert(b.contains(k));
                let l = a.index_of(k);
                assert(l < a.len() - 1);
                assert(x[l] == k);
            }
        }
        lemma_strictly_sorted_unique(x, y);
        assert(a =~= x.push(a.last()));
        assert(b =~= y.push(b.last()));
    }
}

/// Where `key` is among strings in strictly ascending order, or where it belongs: whether it is
/// there, and the index of the first string that does not precede it.
pub fn locate(sorted: &Vec<String>, key: &str) -> (r: (bool, usize))
    requires
        strictly_sorted(texts(sorted@)),
    ensures
        r.1 <= sorted.len(),
        forall|i: int| 0 <= i < r.1 ==> lex_lt(#[trigger] texts(sorted@)[i], key@),
        forall|i: int| r.1 <= i < sorted.len() ==> !lex_lt(#[trigger] texts(sorted@)[i], key@),
        r.0 == texts(sorted@).contains(key@),
        r.0 == (r.1 < sorted.len() && texts(sorted@)[r.1 as int] == key@),
{
    let ghost keys = texts(sorted@);
    let mut low: usize = 0;
    let mut high: usize = sorted.len();
    while low < high
        invariant
            low <= high <= sorted.len(),
            keys == texts(sorted@),
            strictly_sorted(keys),
            forall|i: int| 0 <= i < low ==> lex_lt(#[trigger] keys[i], key@),
            forall|i: int| high <= i < keys.len() ==> !lex_lt(#[trigger] keys[i], key@),
        decreases high - low,
    {
        let mid: usize = low + (high - low) / 2;
        if precedes(sorted[mid].as_str(), key) {
            assert forall|i: int| 0 <= i < mid + 1 implies lex_lt(#[trigger] keys[i], key@) by {
                assert(lex_lt(keys[mid as int], key@));
                if i < mid {
                    lemma_lex_transitive(keys[i], keys[mid as int], key@);
                }
            }
            low = mid + 1;
        } else {
            assert forall|i: int| mid <= i < keys.len() implies !lex_lt(#[trigger] keys[i], key@) by {
                assert(!lex_lt(keys[mid as int], key@));
                if mid < i && lex_lt(keys[i], key@) {
                    lemma_lex_transitive(keys[mid as int], keys[i], key@);
                }
            }
            high = mid;
        }
    }
    let here: bool = low < sorted.len() && same_text(sorted[low].as_str(), key);
    proof {
        if keys.contains(key@) {
            let i = keys.index_of(key@);
            lemma_lex_irreflexive(key@);
            assert(low <= i);
            if low < i {
                assert(lex_lt(keys[low as int], keys[i]));
            }
        }
    }
    (here, low)
}

/// Inserting a text where it belongs keeps a strictly ascending order, and adds that text alone.
pub proof fn lemma_insert_keeps_strictly_sorted(keys: Seq<Seq<char>>, at: int, key: Seq<char>)
    requires
        strictly_sorted(keys),
        0 <= at <= keys.len(),
        forall|i: int| 0 <= i < at ==> lex_lt(#[trigger] keys[i], key),
        forall|i: int| at <= i < keys.len() ==> !lex_lt(#[trigger] keys[i], key),
        !keys.contains(key),
    ensures
        strictly_sorted(keys.insert(at, key)),
        forall|k: Seq<char>| #[trigger]
            keys.insert(at, key).contains(k) <==> keys.contains(k) || k == key,
{
    let t = keys.insert(at, key);
    if at < keys.len() {
        assert(keys.contains(keys[at]));
    }
    assert forall|i: int, j: int| 0 <= i < j < t.len() implies lex_lt(#[trigger] t[i], #[trigger] t[j]) by {
        if i == at {
            assert(t[j] == keys[j - 1]);
            lemma_lex_total(keys[at], key);
            if at < j - 1 {
                assert(lex_lt(keys[at], keys[j - 1]));
                lemma_lex_transitive(key, keys[at], keys[j - 1]);
            }
        } else if j == at {
            assert(t[i] == keys[i]);
        } else {
            let i2 = if i < at { i } else { i - 1 };
            let j2 = if j < at { j } else { j - 1 };
            assert(t[i] == keys[i2]);
            assert(t[j] == keys[j2]);
        }
    }
    assert forall|k: Seq<char>| #[trigger] t.contains(k) <==> keys.contains(k) || k == key by {
        if t.contains(k) && k != key {
            let i = t.index_of(k);
            assert(keys[if i < at { i } else { i - 1 }] == k);
        }
        if keys.contains(k) {
            let i = keys.index_of(k);
            assert(t[if i < at { i } else { i + 1 }] == k);
        }
        assert(t[at] == key);
    }
}

} // verus!
