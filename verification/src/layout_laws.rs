//! Laws of the key scheme: keys sort as their sequence numbers do, parse back to them, and never
//! collide, within a generation or across generations.

use vstd::prelude::*;
use vstd::string::*;
use crate::decimal::{all_digits, digit_value, digits_value, lemma_decimal_denotes, lemma_decimal_order, lemma_u64_fits_twenty_digits, u64_of_text};
use crate::layout::{seqno_text, version_key_seqno, Layout};
use crate::order::{lemma_lex_common_head, lemma_lex_common_len, lemma_lex_irreflexive, lex_lt};
use crate::text::{after_last, ends_with, lemma_after_last, starts_with};
use crate::text_laws::law_the_last_component;

verus! {

/// The twenty digits of a sequence number: how long they are, that they are digits, and that no
/// other sequence number has them.
pub proof fn lemma_seqno_text(seqno: u64)
    ensures
        seqno_text(seqno).len() == 20,
        all_digits(seqno_text(seqno)),
        digits_value(seqno_text(seqno)) == seqno,
{
    lemma_u64_fits_twenty_digits(seqno);
    lemma_decimal_denotes(seqno as nat, 20);
}

/// Listing the version records in lexical order lists them in order of their sequence numbers.
pub proof fn law_version_keys_sort_numerically(layout: Layout, a: u64, b: u64)
    ensures
        lex_lt(layout.version_key(a), layout.version_key(b)) == (a < b),
{
    let head = layout.base_key() + "/versions/"@;
    let x = seqno_text(a);
    let y = seqno_text(b);
    assert(layout.version_key(a) =~= head + (x + ".json"@));
    assert(layout.version_key(b) =~= head + (y + ".json"@));
    lemma_lex_common_head(head, x + ".json"@, y + ".json"@);
    lemma_seqno_text(a);
    lemma_seqno_text(b);
    lemma_u64_fits_twenty_digits(a);
    lemma_u64_fits_twenty_digits(b);
    lemma_decimal_order(a as nat, b as nat, 20);
    if a == b {
        lemma_lex_irreflexive(x + ".json"@);
    } else {
        lemma_lex_common_len(x, y, ".json"@, ".json"@);
    }
}

/// The key of a version record names the sequence number that it was made from.
pub proof fn law_version_key_parses_back(layout: Layout, seqno: u64)
    ensures
        version_key_seqno(layout.version_key(seqno)) == Some(seqno),
{
    reveal_strlit("/versions/");
    reveal_strlit(".json");
    let digits = seqno_text(seqno);
    let tail = digits + ".json"@;
    let head = layout.base_key() + "/versions/"@.drop_last();
    lemma_seqno_text(seqno);
    assert(layout.version_key(seqno) =~= head.push('/') + tail);
    assert forall|i: int| 0 <= i < tail.len() implies tail[i] != '/' by {
        if i < 20 {
            assert(digit_value(digits[i]) is Some);
        }
    }
    lemma_after_last(head, tail, '/');
    let key = layout.version_key(seqno);
    let dir = key.take(key.len() - tail.len());
    assert(dir.skip(dir.len() - "/versions/"@.len()) =~= "/versions/"@);
    assert(tail.skip(tail.len() - 5) =~= ".json"@);
    assert(tail.take(tail.len() - 5) =~= digits);
    assert(digit_value(digits[0]) is Some);
}

/// Whatever its name, a key whose last directory is another one names no sequence number.
proof fn lemma_other_directory(head: Seq<char>, name: Seq<char>)
    requires
        !name.contains('/'),
        head.len() >= 2,
        head.last() != 's' || head[head.len() - 2] != 'n',
    ensures
        version_key_seqno(head.push('/') + name) is None,
{
    reveal_strlit("versions/");
    reveal_strlit("/versions/");
    let key = head.push('/') + name;
    assert forall|i: int| 0 <= i < name.len() implies name[i] != '/' by {
        assert(name.contains(name[i]));
    }
    lemma_after_last(head, name, '/');
    let dir = key.take(key.len() - name.len());
    assert(dir =~= head.push('/'));
    if dir == "versions/"@ {
        assert(dir[7] == head.last());
        assert(dir[6] == head[head.len() - 2]);
    }
    if ends_with(dir, "/versions/"@) {
        let tail = dir.skip(dir.len() - 10);
        assert(tail[8] == 's' && tail[7] == 'n');
        assert(tail[8] == head.last());
        assert(tail[7] == head[head.len() - 2]);
    }
}

/// No other object of a generation is taken for a version record: not a file, a journal or the copy
/// of a record at a re-base point, whatever their names.
pub proof fn law_other_keys_name_no_seqno(
    layout: Layout,
    id: Seq<char>,
    seqno: u64,
    name: Seq<char>,
)
    requires
        !id.contains('/'),
        !name.contains('/'),
    ensures
        version_key_seqno(layout.file_key(id)) is None,
        version_key_seqno(layout.journal_key(seqno, name)) is None,
        version_key_seqno(layout.snapshot_key(seqno)) is None,
{
    reveal_strlit("/files/");
    reveal_strlit("/snapshots/");
    reveal_strlit("/");
    reveal_strlit(".json");
    let base = layout.base_key();
    let files = base + "/files/"@.drop_last();
    assert(layout.file_key(id) =~= files.push('/') + id);
    lemma_other_directory(files, id);
    lemma_seqno_text(seqno);
    let digits = seqno_text(seqno);
    let journals = layout.journal_dir_key(seqno);
    assert(layout.journal_key(seqno, name) =~= journals.push('/') + name);
    assert(journals.last() == digits[19]);
    assert(digit_value(digits[19]) is Some);
    lemma_other_directory(journals, name);
    let snapshots = base + "/snapshots/"@.drop_last();
    let tail = digits + ".json"@;
    assert(layout.snapshot_key(seqno) =~= snapshots.push('/') + tail);
    assert forall|i: int| 0 <= i < tail.len() implies tail[i] != '/' by {
        if i < 20 {
            assert(digit_value(digits[i]) is Some);
        }
    }
    lemma_other_directory(snapshots, tail);
}

/// Every key of a layout lies under its base key.
pub open spec fn under(layout: Layout, key: Seq<char>) -> bool {
    starts_with(key, layout.base_key() + "/"@)
}

/// Where each kind of key of a layout begins.
pub proof fn lemma_key_shapes(layout: Layout, id: Seq<char>, seqno: u64, name: Seq<char>)
    ensures
        ({
            let n = layout.base_key().len() as int;
            let file = layout.file_key(id);
            let version = layout.version_key(seqno);
            let snapshot = layout.snapshot_key(seqno);
            let journal = layout.journal_key(seqno, name);
            &&& file.len() == n + 7 + id.len() && file[n + 1] == 'f'
            &&& version.len() == n + 35 && version[n + 1] == 'v'
            &&& snapshot.len() == n + 36 && snapshot[n + 1] == 's'
            &&& journal.len() == n + 31 + name.len() && journal[n + 1] == 'j'
            &&& under(layout, file)
            &&& under(layout, version)
            &&& under(layout, snapshot)
            &&& under(layout, journal)
            &&& file.skip(n + 7) == id
            &&& version.subrange(n + 10, n + 30) == seqno_text(seqno)
            &&& snapshot.subrange(n + 11, n + 31) == seqno_text(seqno)
            &&& journal.subrange(n + 10, n + 30) == seqno_text(seqno)
            &&& journal.skip(n + 31) == name
        }),
{
    reveal_strlit("/files/");
    reveal_strlit("/versions/");
    reveal_strlit("/snapshots/");
    reveal_strlit("/journals/");
    reveal_strlit(".json");
    reveal_strlit("/");
    lemma_seqno_text(seqno);
    let base = layout.base_key();
    let n = base.len() as int;
    let file = layout.file_key(id);
    let version = layout.version_key(seqno);
    let snapshot = layout.snapshot_key(seqno);
    let journal = layout.journal_key(seqno, name);
    assert(file.skip(n + 7) =~= id);
    assert(version.subrange(n + 10, n + 30) =~= seqno_text(seqno));
    assert(snapshot.subrange(n + 11, n + 31) =~= seqno_text(seqno));
    assert(journal.subrange(n + 10, n + 30) =~= seqno_text(seqno));
    assert(journal.skip(n + 31) =~= name);
    assert(file.take(n + 1) =~= base + "/"@);
    assert(version.take(n + 1) =~= base + "/"@);
    assert(snapshot.take(n + 1) =~= base + "/"@);
    assert(journal.take(n + 1) =~= base + "/"@);
}

/// Two objects of one generation share a key only if they are the same object: a file key names
/// one file, a version or snapshot key one sequence number, a journal key one journal of one
/// version, and the four kinds never meet.
pub proof fn law_keys_are_distinct(
    layout: Layout,
    id: Seq<char>,
    other_id: Seq<char>,
    seqno: u64,
    other_seqno: u64,
    name: Seq<char>,
    other_name: Seq<char>,
)
    ensures
        layout.file_key(id) == layout.file_key(other_id) ==> id == other_id,
        layout.version_key(seqno) == layout.version_key(other_seqno) ==> seqno == other_seqno,
        layout.snapshot_key(seqno) == layout.snapshot_key(other_seqno) ==> seqno == other_seqno,
        layout.journal_key(seqno, name) == layout.journal_key(other_seqno, other_name) ==> seqno
            == other_seqno && name == other_name,
        layout.file_key(id) != layout.version_key(seqno),
        layout.file_key(id) != layout.snapshot_key(seqno),
        layout.file_key(id) != layout.journal_key(seqno, name),
        layout.version_key(seqno) != layout.snapshot_key(other_seqno),
        layout.version_key(seqno) != layout.journal_key(other_seqno, name),
        layout.snapshot_key(seqno) != layout.journal_key(other_seqno, name),
{
    lemma_key_shapes(layout, id, seqno, name);
    lemma_key_shapes(layout, other_id, other_seqno, other_name);
    lemma_key_shapes(layout, other_id, other_seqno, name);
    lemma_seqno_text(seqno);
    lemma_seqno_text(other_seqno);
}

/// Histories of different generations never meet: no key lies under two generations of one
/// database, as long as the generation ids hold no slash.
pub proof fn law_generations_never_cross(a: Layout, b: Layout, key: Seq<char>)
    requires
        a.db@ == b.db@,
        a.generation.0@ != b.generation.0@,
        !a.generation.0@.contains('/'),
        !b.generation.0@.contains('/'),
    ensures
        !(under(a, key) && under(b, key)),
{
    reveal_strlit("/");
    if under(a, key) && under(b, key) {
        let g = a.generation.0@;
        let h = b.generation.0@;
        let d = (a.db@ + "/generations/"@).len() as int;
        let ka = a.base_key() + "/"@;
        let kb = b.base_key() + "/"@;
        assert forall|i: int| 0 <= i < g.len() implies key[d + i] == g[i] by {
            assert(key.take(ka.len() as int)[d + i] == ka[d + i]);
        }
        assert forall|i: int| 0 <= i < h.len() implies key[d + i] == h[i] by {
            assert(key.take(kb.len() as int)[d + i] == kb[d + i]);
        }
        assert(key.take(ka.len() as int)[d + g.len()] == ka[d + g.len()]);
        assert(key.take(kb.len() as int)[d + h.len()] == kb[d + h.len()]);
        assert(key[d + g.len()] == '/');
        assert(key[d + h.len()] == '/');
        if g.len() < h.len() {
            assert(h[g.len() as int] == '/');
        } else if h.len() < g.len() {
            assert(g[h.len() as int] == '/');
        } else {
            assert(g =~= h);
        }
    }
}

/// Every key that a layout makes lies under it.
pub proof fn law_keys_lie_under_their_generation(
    layout: Layout,
    id: Seq<char>,
    seqno: u64,
    name: Seq<char>,
)
    ensures
        under(layout, layout.file_key(id)),
        under(layout, layout.version_key(seqno)),
        under(layout, layout.snapshot_key(seqno)),
        under(layout, layout.journal_key(seqno, name)),
{
    lemma_key_shapes(layout, id, seqno, name);
}

/// Where things live: everything of a generation is under `<db>/generations/<gen>`, files by their
/// paths, journals by the version and their names, version records and their copies by the twenty
/// digits of the sequence number.
pub proof fn law_where_things_live(layout: Layout, id: Seq<char>, seqno: u64, name: Seq<char>)
    ensures
        ({
            let top = layout.db@ + "/generations/"@ + layout.generation.0@;
            let file = layout.file_key(id);
            let version = layout.version_key(seqno);
            let snapshot = layout.snapshot_key(seqno);
            let journal = layout.journal_key(seqno, name);
            let n = top.len() as int;
            &&& file == top + "/files/"@ + id
            &&& version.len() == n + 35
            &&& version.take(n + 10) == top + "/versions/"@
            &&& version.skip(n + 30) == ".json"@
            &&& digits_value(version.subrange(n + 10, n + 30)) == seqno
            &&& all_digits(version.subrange(n + 10, n + 30))
            &&& snapshot.len() == n + 36
            &&& snapshot.take(n + 11) == top + "/snapshots/"@
            &&& snapshot.skip(n + 31) == ".json"@
            &&& digits_value(snapshot.subrange(n + 11, n + 31)) == seqno
            &&& all_digits(snapshot.subrange(n + 11, n + 31))
            &&& journal.len() == n + 31 + name.len()
            &&& journal.take(n + 10) == top + "/journals/"@
            &&& digits_value(journal.subrange(n + 10, n + 30)) == seqno
            &&& all_digits(journal.subrange(n + 10, n + 30))
            &&& journal.skip(n + 30) == "/"@ + name
            &&& layout.journal_dir_key(seqno) == journal.take(n + 30)
        }),
{
    reveal_strlit("/versions/");
    reveal_strlit("/snapshots/");
    reveal_strlit("/journals/");
    reveal_strlit(".json");
    reveal_strlit("/");
    let top = layout.db@ + "/generations/"@ + layout.generation.0@;
    let n = top.len() as int;
    lemma_key_shapes(layout, id, seqno, name);
    lemma_seqno_text(seqno);
    let version = layout.version_key(seqno);
    let snapshot = layout.snapshot_key(seqno);
    let journal = layout.journal_key(seqno, name);
    assert(version.take(n + 10) =~= top + "/versions/"@);
    assert(version.skip(n + 30) =~= ".json"@);
    assert(snapshot.take(n + 11) =~= top + "/snapshots/"@);
    assert(snapshot.skip(n + 31) =~= ".json"@);
    assert(journal.take(n + 10) =~= top + "/journals/"@);
    assert(journal.skip(n + 30) =~= "/"@ + name);
    assert(layout.journal_dir_key(seqno) =~= journal.take(n + 30));
}

/// A key in a directory `versions` names the number that stands before `.json`, padded or not, and no
/// number if something else stands there; so does the same key with nothing before that directory.
pub proof fn law_a_version_key_names_what_stands_there(head: Seq<char>, stem: Seq<char>)
    requires
        !stem.contains('/'),
    ensures
        version_key_seqno(head + "/versions/"@ + stem + ".json"@) == u64_of_text(stem),
        version_key_seqno("versions/"@ + stem + ".json"@) == u64_of_text(stem),
{
    reveal_strlit("/versions/");
    reveal_strlit("versions/");
    reveal_strlit(".json");
    let tail = stem + ".json"@;
    assert forall|i: int| 0 <= i < tail.len() implies tail[i] != '/' by {
        if i < stem.len() {
            assert(stem.contains(stem[i]));
        }
    }
    assert(tail.skip(tail.len() - 5) =~= ".json"@);
    assert(tail.take(tail.len() - 5) =~= stem);
    let front = head + "/versions/"@.drop_last();
    let key = head + "/versions/"@ + stem + ".json"@;
    assert(key =~= front.push('/') + tail);
    lemma_after_last(front, tail, '/');
    let dir = key.take(key.len() - tail.len());
    assert(dir.skip(dir.len() - 10) =~= "/versions/"@);
    let bare = "versions/"@.drop_last();
    let short = "versions/"@ + stem + ".json"@;
    assert(short =~= bare.push('/') + tail);
    lemma_after_last(bare, tail, '/');
    assert(short.take(short.len() - tail.len()) =~= "versions/"@);
}

/// A key whose last directory has another name, or whose name does not end in `.json`, names no
/// number.
pub proof fn law_no_other_key_names_a_number(key: Seq<char>)
    ensures
        version_key_seqno(key) is Some ==> exists|head: Seq<char>, stem: Seq<char>|
            (head.len() == 0 || head.last() == '/') && !stem.contains('/') && key == #[trigger] (head
                + "versions/"@ + stem + ".json"@),
{
    reveal_strlit("/versions/");
    reveal_strlit("versions/");
    reveal_strlit(".json");
    if version_key_seqno(key) is Some {
        law_the_last_component(key, '/');
        let name = after_last(key, '/');
        let dir = key.take(key.len() - name.len());
        let stem = name.take(name.len() - 5);
        assert(name =~= stem + ".json"@) by {
            assert(name =~= stem + name.skip(name.len() - 5));
        }
        assert forall|i: int| 0 <= i < stem.len() implies stem[i] != '/' by {
            assert(name.contains(name[i]));
        }
        let head = dir.take(dir.len() - 9);
        if dir == "versions/"@ {
            assert(head =~= Seq::empty());
            assert(dir =~= head + "versions/"@);
        } else {
            let end = dir.skip(dir.len() - 10);
            assert(end == "/versions/"@);
            assert(dir.skip(dir.len() - 9) =~= end.skip(1));
            assert(end.skip(1) =~= "versions/"@);
            assert(dir =~= head + dir.skip(dir.len() - 9));
            assert(head.last() == end[0]);
        }
        assert(key =~= head + "versions/"@ + stem + ".json"@);
    }
}

} // verus!
