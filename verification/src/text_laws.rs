//! Laws of text: what prefixes, suffixes, components and the order of keys are.

use vstd::prelude::*;
use vstd::string::*;
use crate::order::{lemma_lex_common_head, lemma_lex_total, lex_lt, sorted_texts};
use crate::text::{after_last, ends_with, replaced, starts_with, texts};

verus! {

/// A text begins with a prefix exactly if it is that prefix and something behind it.
pub proof fn law_a_prefix_comes_first(prefix: Seq<char>, rest: Seq<char>, s: Seq<char>)
    ensures
        starts_with(prefix + rest, prefix),
        starts_with(s, prefix) ==> s == prefix + s.skip(prefix.len() as int),
{
    assert((prefix + rest).take(prefix.len() as int) =~= prefix);
    if starts_with(s, prefix) {
        assert(s =~= s.take(prefix.len() as int) + s.skip(prefix.len() as int));
    }
}

/// A text ends with a suffix exactly if it is something and that suffix behind it.
pub proof fn law_a_suffix_comes_last(rest: Seq<char>, suffix: Seq<char>, s: Seq<char>)
    ensures
        ends_with(rest + suffix, suffix),
        ends_with(s, suffix) ==> s == s.take(s.len() - suffix.len()) + suffix,
{
    let whole = rest + suffix;
    assert(whole.skip(whole.len() - suffix.len()) =~= suffix);
    if ends_with(s, suffix) {
        let n = s.len() - suffix.len();
        assert(s =~= s.take(n) + s.skip(n));
    }
}

/// Replacing a character leaves none of it, leaves every other one where it is, and goes through a
/// text part by part.
pub proof fn law_every_occurrence_is_replaced(s: Seq<char>, t: Seq<char>, from: char, to: char)
    ensures
        from != to ==> !replaced(s, from, to).contains(from),
        !s.contains(from) ==> replaced(s, from, to) == s,
        replaced(s.push(from), from, to) == replaced(s, from, to).push(to),
        replaced(s + t, from, to) == replaced(s, from, to) + replaced(t, from, to),
{
    let r = replaced(s, from, to);
    if from != to {
        assert forall|i: int| 0 <= i < r.len() implies r[i] != from by {}
    }
    if !s.contains(from) {
        assert forall|i: int| 0 <= i < s.len() implies r[i] == s[i] by {
            assert(s.contains(s[i]));
        }
        assert(r =~= s);
    }
    assert(replaced(s.push(from), from, to) =~= r.push(to));
    assert(replaced(s + t, from, to) =~= r + replaced(t, from, to));
}

/// The part behind the last separator holds no separator, and all before it is empty or ends in
/// one.
pub proof fn law_the_last_component(s: Seq<char>, sep: char)
    ensures
        ({
            let tail = after_last(s, sep);
            let head = s.take(s.len() - tail.len());
            &&& tail.len() <= s.len()
            &&& s == head + tail
            &&& !tail.contains(sep)
            &&& head.len() == 0 || head.last() == sep
        }),
    decreases s.len(),
{
    let tail = after_last(s, sep);
    if s.len() == 0 || s.last() == sep {
        assert(s =~= s.take(s.len() as int) + tail);
        assert(s.take(s.len() as int) =~= s);
    } else {
        law_the_last_component(s.drop_last(), sep);
        let before = after_last(s.drop_last(), sep);
        let head = s.take(s.len() - tail.len());
        assert(head =~= s.drop_last().take(s.drop_last().len() - before.len()));
        assert(s =~= s.drop_last().push(s.last()));
        assert(s =~= head + tail);
        assert forall|i: int| 0 <= i < tail.len() implies tail[i] != sep by {
            if i < before.len() {
                assert(before.contains(before[i]));
            }
        }
    }
}

/// Keys are in the order of their first different characters, by code point; a key comes before
/// every longer one that begins with it, and nothing comes before itself.
pub proof fn law_keys_are_in_code_point_order(
    head: Seq<char>,
    a: char,
    b: char,
    x: Seq<char>,
    y: Seq<char>,
)
    ensures
        a != b ==> lex_lt(head + seq![a] + x, head + seq![b] + y) == ((a as int) < (b as int)),
        lex_lt(head, head + seq![a] + x),
        !lex_lt(head + seq![a] + x, head),
        !lex_lt(head, head),
{
    assert(head + seq![a] + x =~= head + (seq![a] + x));
    assert(head + seq![b] + y =~= head + (seq![b] + y));
    assert(head =~= head + Seq::<char>::empty());
    lemma_lex_common_head(head, seq![a] + x, seq![b] + y);
    lemma_lex_common_head(head, Seq::empty(), seq![a] + x);
    lemma_lex_common_head(head, seq![a] + x, Seq::empty());
    lemma_lex_common_head(head, Seq::empty(), Seq::empty());
}

/// In a sorted list, of two texts the earlier one is the same or comes before.
pub proof fn law_a_sorted_list_is_in_order(list: Seq<Seq<char>>, i: int, j: int)
    requires
        sorted_texts(list),
        0 <= i < j < list.len(),
    ensures
        list[i] == list[j] || lex_lt(list[i], list[j]),
{
    lemma_lex_total(list[i], list[j]);
    assert(!lex_lt(list[j], list[i]));
}

/// The characters of a list of strings: one text for each, in order.
pub proof fn law_texts_are_the_strings(list: Seq<String>, i: int)
    ensures
        texts(list).len() == list.len(),
        0 <= i < list.len() ==> texts(list)[i] == list[i]@,
{
}

} // verus!
