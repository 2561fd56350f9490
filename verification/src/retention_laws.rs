//! Laws of retention: wherever a prune stops, what is retained is whole, and no record dangles.

use vstd::prelude::*;
use vstd::string::*;
use crate::history::{complete, recorded, sound, sound_at, without, Decode};
use crate::layout::{seqno_text, Layout};
use crate::layout_laws::{law_keys_are_distinct, lemma_key_shapes, lemma_seqno_text};
use crate::object_store::Objects;
use crate::restore::restore_actions;
use crate::restore_laws::{
    carried_out, file_is_good, journal_is_good, law_restore_is_exact, stored_files, stored_journals,
};
use crate::retention::{ascending, doomed, is_file_key, is_journal_of, is_live};
use crate::text::starts_with;
use crate::types::RecordView;

verus! {

/// The two parts of the window hold every version that is on record.
pub open spec fn window_is_whole(
    layout: Layout,
    store: Objects,
    expired: Seq<u64>,
    retained: Seq<u64>,
) -> bool {
    forall|seqno: u64| #[trigger]
        store.contains_key(layout.version_key(seqno)) ==> expired.contains(seqno)
            || retained.contains(seqno)
}

/// `records` are the records of the retained versions.
pub open spec fn are_retained_records(
    layout: Layout,
    store: Objects,
    decode: Decode,
    retained: Seq<u64>,
    records: Seq<RecordView>,
) -> bool {
    &&& records.len() == retained.len()
    &&& forall|i: int|
        0 <= i < retained.len() ==> recorded(layout, store, decode, #[trigger] retained[i]) == Some(
            records[i],
        )
}

/// A prune: what it is given, and that the bucket was sound before it.
pub open spec fn can_prune(
    layout: Layout,
    store: Objects,
    decode: Decode,
    expired: Seq<u64>,
    retained: Seq<u64>,
    records: Seq<RecordView>,
) -> bool {
    &&& sound(layout, store, decode)
    &&& ascending(expired + retained)
    &&& window_is_whole(layout, store, expired, retained)
    &&& are_retained_records(layout, store, decode, retained, records)
}

/// What is among the first `n` keys to delete: an expired version record, its re-base copy, a
/// journal of an expired version, or a file that is not live; and anything but version records
/// only after those.
pub proof fn lemma_doomed(
    layout: Layout,
    expired: Seq<u64>,
    records: Seq<RecordView>,
    journal_keys: Seq<Seq<char>>,
    file_keys: Seq<Seq<char>>,
    n: int,
    key: Seq<char>,
)
    requires
        0 <= n <= doomed(layout, expired, records, journal_keys, file_keys).len(),
        doomed(layout, expired, records, journal_keys, file_keys).take(n).contains(key),
    ensures
        ({
            ||| exists|i: int|
                0 <= i < expired.len() && key == layout.version_key(#[trigger] expired[i])
            ||| n > expired.len() && exists|i: int|
                0 <= i < expired.len() && key == layout.snapshot_key(#[trigger] expired[i])
            ||| n > expired.len() && is_journal_of(layout, expired, key)
            ||| n > expired.len() && is_file_key(layout, key) && !is_live(layout, records, key)
        }),
{
    let all = doomed(layout, expired, records, journal_keys, file_keys);
    let e = expired.len() as int;
    let goes_journal = |k: Seq<char>| is_journal_of(layout, expired, k);
    let goes_file = |k: Seq<char>| is_file_key(layout, k) && !is_live(layout, records, k);
    let journals = journal_keys.filter(goes_journal);
    let files = file_keys.filter(goes_file);
    let i = all.take(n).index_of(key);
    assert(all[i] == key);
    broadcast use vstd::seq_lib::group_filter_ensures;
    if i < e {
        assert(key == layout.version_key(expired[i]));
    } else if i < 2 * e {
        assert(key == layout.snapshot_key(expired[i - e]));
    } else if i < 2 * e + journals.len() {
        assert(journals[i - 2 * e] == key);
    } else {
        assert(files[i - 2 * e - journals.len()] == key);
    }
}

/// A file key shows that it is one.
proof fn lemma_file_key_shape(layout: Layout, key: Seq<char>)
    requires
        is_file_key(layout, key),
    ensures
        key[layout.base_key().len() as int + 1] == 'f',
{
    reveal_strlit("/files");
    reveal_strlit("/");
    let dir = layout.base_key() + "/files"@ + "/"@;
    assert(key.take(dir.len() as int)[layout.base_key().len() as int + 1] == 'f');
}

/// A journal key shows that it is one, and of which version.
proof fn lemma_journal_key_shape(layout: Layout, seqno: u64, key: Seq<char>)
    requires
        starts_with(key, layout.journal_dir_key(seqno) + "/"@),
    ensures
        ({
            let n = layout.base_key().len() as int;
            &&& key.len() >= n + 31
            &&& key[n + 1] == 'j'
            &&& key.subrange(n + 10, n + 30) == seqno_text(seqno)
        }),
{
    reveal_strlit("/journals/");
    reveal_strlit("/");
    lemma_seqno_text(seqno);
    let n = layout.base_key().len() as int;
    let dir = layout.journal_dir_key(seqno) + "/"@;
    assert(dir.subrange(n + 10, n + 30) =~= seqno_text(seqno));
    assert(key.take(dir.len() as int)[n + 1] == 'j');
    assert(key.subrange(n + 10, n + 30) =~= key.take(dir.len() as int).subrange(n + 10, n + 30));
}

/// None of the first `n` keys to delete belongs to a retained version: not its record, not a file
/// that it references, not one of its journals.
proof fn lemma_retained_keys_are_spared(
    layout: Layout,
    expired: Seq<u64>,
    retained: Seq<u64>,
    records: Seq<RecordView>,
    journal_keys: Seq<Seq<char>>,
    file_keys: Seq<Seq<char>>,
    n: int,
    seqno: u64,
    name: Seq<char>,
)
    requires
        0 <= n <= doomed(layout, expired, records, journal_keys, file_keys).len(),
        ascending(expired + retained),
        retained.contains(seqno),
    ensures
        ({
            let gone = doomed(layout, expired, records, journal_keys, file_keys).take(n);
            &&& !gone.contains(layout.version_key(seqno))
            &&& !gone.contains(layout.journal_key(seqno, name))
            &&& is_live(layout, records, layout.file_key(name)) ==> !gone.contains(
                layout.file_key(name),
            )
        }),
{
    let gone = doomed(layout, expired, records, journal_keys, file_keys).take(n);
    let b = layout.base_key().len() as int;
    lemma_key_shapes(layout, name, seqno, name);
    assert forall|i: int| 0 <= i < expired.len() implies #[trigger] expired[i] != seqno by {
        let j = retained.index_of(seqno);
        assert((expired + retained)[i] == expired[i]);
        assert((expired + retained)[expired.len() + j] == seqno);
    }
    assert forall|key: Seq<char>|
        #![trigger gone.contains(key)]
        key == layout.version_key(seqno) || key == layout.journal_key(seqno, name) || (key
            == layout.file_key(name) && is_live(layout, records, key)) implies !gone.contains(key) by {
        if gone.contains(key) {
            lemma_doomed(layout, expired, records, journal_keys, file_keys, n, key);
            if exists|i: int|
                0 <= i < expired.len() && key == layout.version_key(#[trigger] expired[i]) {
                let i = choose|i: int|
                    0 <= i < expired.len() && key == layout.version_key(#[trigger] expired[i]);
                law_keys_are_distinct(layout, name, name, seqno, expired[i], name, name);
                law_keys_are_distinct(layout, name, name, expired[i], seqno, name, name);
            } else if exists|i: int|
                0 <= i < expired.len() && key == layout.snapshot_key(#[trigger] expired[i]) {
                let i = choose|i: int|
                    0 <= i < expired.len() && key == layout.snapshot_key(#[trigger] expired[i]);
                law_keys_are_distinct(layout, name, name, seqno, expired[i], name, name);
                law_keys_are_distinct(layout, name, name, expired[i], seqno, name, name);
            } else if is_journal_of(layout, expired, key) {
                let i = choose|i: int|
                    0 <= i < expired.len() && starts_with(
                        key,
                        #[trigger] layout.journal_dir_key(expired[i]) + "/"@,
                    );
                lemma_journal_key_shape(layout, expired[i], key);
                lemma_seqno_text(expired[i]);
                lemma_seqno_text(seqno);
                assert(expired[i] != seqno);
            } else {
                lemma_file_key_shape(layout, key);
            }
        }
    }
}

/// Pruning never deletes a file that a retained version references, nor its record or journals:
/// wherever a prune stops, each retained version is on record as before, and restores as before.
pub proof fn law_retained_versions_stay(
    layout: Layout,
    store: Objects,
    decode: Decode,
    expired: Seq<u64>,
    retained: Seq<u64>,
    records: Seq<RecordView>,
    journal_keys: Seq<Seq<char>>,
    file_keys: Seq<Seq<char>>,
    n: int,
    i: int,
)
    requires
        can_prune(layout, store, decode, expired, retained, records),
        0 <= n <= doomed(layout, expired, records, journal_keys, file_keys).len(),
        0 <= i < retained.len(),
    ensures
        ({
            let gone = doomed(layout, expired, records, journal_keys, file_keys).take(n);
            let after = without(store, gone);
            let actions = restore_actions(layout, records[i]);
            &&& recorded(layout, after, decode, retained[i]) == Some(records[i])
            &&& complete(layout, after, records[i])
            &&& carried_out(after, records[i], actions) == carried_out(store, records[i], actions)
        }),
{
    let gone = doomed(layout, expired, records, journal_keys, file_keys).take(n);
    let after = without(store, gone);
    let seqno = retained[i];
    let record = records[i];
    assert(sound_at(layout, store, decode, seqno));
    assert(recorded(layout, store, decode, seqno) == Some(record));
    assert(retained.contains(seqno));
    lemma_retained_keys_are_spared(
        layout,
        expired,
        retained,
        records,
        journal_keys,
        file_keys,
        n,
        seqno,
        layout.db@,
    );
    assert forall|j: int| 0 <= j < record.file_ids.len() implies after.contains_key(
        layout.file_key(#[trigger] record.file_ids[j]),
    ) && after[layout.file_key(record.file_ids[j])] == store[layout.file_key(record.file_ids[j])] by {
        let id = record.file_ids[j];
        assert(layout.file_key(id) == layout.file_key(records[i].file_ids[j]));
        assert(is_live(layout, records, layout.file_key(id)));
        lemma_retained_keys_are_spared(
            layout,
            expired,
            retained,
            records,
            journal_keys,
            file_keys,
            n,
            seqno,
            id,
        );
    }
    assert forall|j: int| 0 <= j < record.journals.len() implies after.contains_key(
        layout.journal_key(record.seqno, #[trigger] record.journals[j]),
    ) && after[layout.journal_key(record.seqno, record.journals[j])] == store[layout.journal_key(
        record.seqno,
        record.journals[j],
    )] by {
        lemma_retained_keys_are_spared(
            layout,
            expired,
            retained,
            records,
            journal_keys,
            file_keys,
            n,
            seqno,
            record.journals[j],
        );
    }
    law_restore_is_exact(layout, store, record);
    law_restore_is_exact(layout, after, record);
    assert forall|j: int| 0 <= j < record.file_ids.len() implies file_is_good(
        layout,
        after,
        record,
        #[trigger] record.file_ids[j],
    ) == file_is_good(layout, store, record, record.file_ids[j]) by {
        assert(store.contains_key(layout.file_key(record.file_ids[j])));
    }
    assert forall|j: int| 0 <= j < record.journals.len() implies journal_is_good(
        layout,
        after,
        record,
        #[trigger] record.journals[j],
    ) == journal_is_good(layout, store, record, record.journals[j]) by {
        assert(store.contains_key(layout.journal_key(record.seqno, record.journals[j])));
    }
    assert(stored_files(layout, after, record) =~= stored_files(layout, store, record));
    assert(stored_journals(layout, after, record) =~= stored_journals(layout, store, record));
}

/// A crash mid-prune never leaves a dangling record: wherever a prune stops, everything that a
/// version record in the bucket references is there.
pub proof fn law_prune_leaves_no_dangling_record(
    layout: Layout,
    store: Objects,
    decode: Decode,
    expired: Seq<u64>,
    retained: Seq<u64>,
    records: Seq<RecordView>,
    journal_keys: Seq<Seq<char>>,
    file_keys: Seq<Seq<char>>,
    n: int,
)
    requires
        can_prune(layout, store, decode, expired, retained, records),
        0 <= n <= doomed(layout, expired, records, journal_keys, file_keys).len(),
    ensures
        ({
            let gone = doomed(layout, expired, records, journal_keys, file_keys).take(n);
            sound(layout, without(store, gone), decode)
        }),
{
    let all = doomed(layout, expired, records, journal_keys, file_keys);
    let gone = all.take(n);
    let after = without(store, gone);
    assert forall|seqno: u64| #[trigger] sound_at(layout, after, decode, seqno) by {
        assert(sound_at(layout, store, decode, seqno));
        let key = layout.version_key(seqno);
        if after.contains_key(key) {
            assert(store.contains_key(key));
            assert(after[key] == store[key]);
            if retained.contains(seqno) {
                let i = retained.index_of(seqno);
                assert(recorded(layout, store, decode, retained[i]) == Some(records[i]));
                law_retained_versions_stay(
                    layout,
                    store,
                    decode,
                    expired,
                    retained,
                    records,
                    journal_keys,
                    file_keys,
                    n,
                    i,
                );
            } else {
                let i = expired.index_of(seqno);
                assert(all[i] == key);
                if i < n {
                    assert(gone[i] == key);
                    assert(gone.contains(key));
                }
                assert(n <= i < expired.len());
                if let Some(record) = recorded(layout, store, decode, seqno) {
                    lemma_only_records_are_gone(
                        layout,
                        expired,
                        records,
                        journal_keys,
                        file_keys,
                        n,
                    );
                    assert forall|j: int| 0 <= j < record.file_ids.len() implies after.contains_key(
                        layout.file_key(#[trigger] record.file_ids[j]),
                    ) by {
                        let id = record.file_ids[j];
                        assert(!gone.contains(layout.file_key(id)));
                    }
                    assert forall|j: int| 0 <= j < record.journals.len() implies after.contains_key(
                        layout.journal_key(record.seqno, #[trigger] record.journals[j]),
                    ) by {
                        let name = record.journals[j];
                        assert(!gone.contains(layout.journal_key(record.seqno, name)));
                    }
                }
            }
        }
    }
}

/// The version records go first.
proof fn lemma_only_records_are_gone(
    layout: Layout,
    expired: Seq<u64>,
    records: Seq<RecordView>,
    journal_keys: Seq<Seq<char>>,
    file_keys: Seq<Seq<char>>,
    n: int,
)
    requires
        0 <= n <= expired.len(),
        n <= doomed(layout, expired, records, journal_keys, file_keys).len(),
    ensures
        ({
            let gone = doomed(layout, expired, records, journal_keys, file_keys).take(n);
            &&& forall|id: Seq<char>| !#[trigger] gone.contains(layout.file_key(id))
            &&& forall|seqno: u64, name: Seq<char>|
                !#[trigger] gone.contains(layout.journal_key(seqno, name))
        }),
{
    let gone = doomed(layout, expired, records, journal_keys, file_keys).take(n);
    assert forall|id: Seq<char>| !#[trigger] gone.contains(layout.file_key(id)) by {
        let key = layout.file_key(id);
        if gone.contains(key) {
            let i = gone.index_of(key);
            assert(key == layout.version_key(expired[i]));
            law_keys_are_distinct(layout, id, id, expired[i], expired[i], id, id);
        }
    }
    assert forall|seqno: u64, name: Seq<char>|
        !#[trigger] gone.contains(layout.journal_key(seqno, name)) by {
        let key = layout.journal_key(seqno, name);
        if gone.contains(key) {
            let i = gone.index_of(key);
            assert(key == layout.version_key(expired[i]));
            law_keys_are_distinct(layout, name, name, expired[i], seqno, name, name);
        }
    }
}

/// A prune that is carried out in full leaves exactly the window: the version records that remain
/// are those of the retained versions, and of the files that the store listed, those remain that a
/// retained version references.
pub proof fn law_a_full_prune_leaves_the_window(
    layout: Layout,
    store: Objects,
    decode: Decode,
    expired: Seq<u64>,
    retained: Seq<u64>,
    records: Seq<RecordView>,
    journal_keys: Seq<Seq<char>>,
    file_keys: Seq<Seq<char>>,
    seqno: u64,
    id: Seq<char>,
)
    requires
        can_prune(layout, store, decode, expired, retained, records),
        forall|k: Seq<char>| #[trigger]
            file_keys.contains(k) <==> store.contains_key(k) && is_file_key(layout, k),
    ensures
        ({
            let gone = doomed(layout, expired, records, journal_keys, file_keys);
            let after = without(store, gone);
            &&& after.contains_key(layout.version_key(seqno)) <==> retained.contains(seqno)
            &&& after.contains_key(layout.file_key(id)) <==> store.contains_key(
                layout.file_key(id),
            ) && is_live(layout, records, layout.file_key(id))
        }),
{
    broadcast use vstd::seq_lib::group_filter_ensures;

    let gone = doomed(layout, expired, records, journal_keys, file_keys);
    let after = without(store, gone);
    let n = gone.len() as int;
    assert(gone.take(n) =~= gone);
    let version = layout.version_key(seqno);
    let file = layout.file_key(id);
    if retained.contains(seqno) {
        let i = retained.index_of(seqno);
        assert(recorded(layout, store, decode, retained[i]) == Some(records[i]));
        law_retained_versions_stay(
            layout,
            store,
            decode,
            expired,
            retained,
            records,
            journal_keys,
            file_keys,
            n,
            i,
        );
    } else if after.contains_key(version) {
        assert(store.contains_key(version));
        let i = expired.index_of(seqno);
        assert(gone[i] == version);
    }
    let goes = |k: Seq<char>| is_file_key(layout, k) && !is_live(layout, records, k);
    assert(is_file_key(layout, file)) by {
        reveal_strlit("/files");
        reveal_strlit("/");
        reveal_strlit("/files/");
        let dir = layout.base_key() + "/files"@ + "/"@;
        assert(file.take(dir.len() as int) =~= dir);
    }
    if store.contains_key(file) && !is_live(layout, records, file) {
        assert(file_keys.contains(file));
        let j = file_keys.index_of(file);
        assert(goes(file_keys[j]));
        file_keys.lemma_filter_contains(goes, j);
        let k = file_keys.filter(goes).index_of(file);
        assert(gone[n - file_keys.filter(goes).len() + k] == file);
        assert(gone.contains(file));
    }
    if store.contains_key(file) && is_live(layout, records, file) && gone.contains(file) {
        assert(gone.take(n).contains(file));
        lemma_live_files_are_spared(layout, expired, records, journal_keys, file_keys, n, id);
    }
}

/// A file that a retained version references is never among the keys to delete.
proof fn lemma_live_files_are_spared(
    layout: Layout,
    expired: Seq<u64>,
    records: Seq<RecordView>,
    journal_keys: Seq<Seq<char>>,
    file_keys: Seq<Seq<char>>,
    n: int,
    id: Seq<char>,
)
    requires
        0 <= n <= doomed(layout, expired, records, journal_keys, file_keys).len(),
        is_live(layout, records, layout.file_key(id)),
    ensures
        !doomed(layout, expired, records, journal_keys, file_keys).take(n).contains(
            layout.file_key(id),
        ),
{
    let key = layout.file_key(id);
    if doomed(layout, expired, records, journal_keys, file_keys).take(n).contains(key) {
        lemma_doomed(layout, expired, records, journal_keys, file_keys, n, key);
        lemma_key_shapes(layout, id, 0, id);
        if exists|i: int|
            0 <= i < expired.len() && key == layout.version_key(#[trigger] expired[i]) {
            let i = choose|i: int|
                0 <= i < expired.len() && key == layout.version_key(#[trigger] expired[i]);
            law_keys_are_distinct(layout, id, id, expired[i], expired[i], id, id);
        } else if exists|i: int|
            0 <= i < expired.len() && key == layout.snapshot_key(#[trigger] expired[i]) {
            let i = choose|i: int|
                0 <= i < expired.len() && key == layout.snapshot_key(#[trigger] expired[i]);
            law_keys_are_distinct(layout, id, id, expired[i], expired[i], id, id);
        } else if is_journal_of(layout, expired, key) {
            let i = choose|i: int|
                0 <= i < expired.len() && starts_with(
                    key,
                    #[trigger] layout.journal_dir_key(expired[i]) + "/"@,
                );
            lemma_journal_key_shape(layout, expired[i], key);
        }
    }
}

} // verus!
