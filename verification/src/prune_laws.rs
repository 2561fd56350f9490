//! Laws of a prune, told by the keys that remain in the bucket: of an expired version nothing is left
//! but the files that a retained version shares with it, and nothing else is touched.

use vstd::prelude::*;
use vstd::string::*;
use crate::history::without;
use crate::layout::Layout;
use crate::layout_laws::law_keys_are_distinct;
use crate::object_store::{law_a_listing_is_recursive, lists, Objects};
use crate::retention::{
    ascending, doomed, is_file_key, is_journal_of, is_live, record_views,
};
use crate::retention_laws::lemma_doomed;
use crate::text::starts_with;
use crate::types::{RecordView, VersionRecord};

verus! {

/// One of the records names this file.
pub open spec fn is_named(records: Seq<RecordView>, id: Seq<char>) -> bool {
    exists|i: int|
        0 <= i < records.len() && (#[trigger] records[i]).file_ids.contains(id)
}

/// The store lists every journal of these versions: whatever lies below their journal directories.
pub open spec fn all_journals_listed(
    layout: Layout,
    store: Objects,
    seqnos: Seq<u64>,
    keys: Seq<Seq<char>>,
) -> bool {
    forall|i: int, name: Seq<char>|
        #![trigger layout.journal_key(seqnos[i], name)]
        0 <= i < seqnos.len() && store.contains_key(layout.journal_key(seqnos[i], name))
            ==> keys.contains(layout.journal_key(seqnos[i], name))
}

/// The store lists every immutable file.
pub open spec fn all_files_listed(layout: Layout, store: Objects, keys: Seq<Seq<char>>) -> bool {
    forall|id: Seq<char>|
        #![trigger layout.file_key(id)]
        store.contains_key(layout.file_key(id)) ==> keys.contains(layout.file_key(id))
}

/// What a file key stands for is live exactly if one of the records names it.
proof fn lemma_live_is_named(layout: Layout, records: Seq<RecordView>, id: Seq<char>)
    ensures
        is_live(layout, records, layout.file_key(id)) <==> is_named(records, id),
{
    let key = layout.file_key(id);
    if is_live(layout, records, key) {
        let (i, j) = choose|i: int, j: int|
            0 <= i < records.len() && 0 <= j < records[i].file_ids.len() && key == layout.file_key(
                #[trigger] records[i].file_ids[j],
            );
        law_keys_are_distinct(layout, id, records[i].file_ids[j], 0, 0, id, id);
        assert(records[i].file_ids.contains(id));
    }
    if is_named(records, id) {
        let i = choose|i: int|
            0 <= i < records.len() && (#[trigger] records[i]).file_ids.contains(id);
        let j = records[i].file_ids.index_of(id);
        assert(key == layout.file_key(records[i].file_ids[j]));
    }
}

/// The four parts of what is deleted.
proof fn lemma_parts_go(
    layout: Layout,
    expired: Seq<u64>,
    records: Seq<RecordView>,
    journal_keys: Seq<Seq<char>>,
    file_keys: Seq<Seq<char>>,
    key: Seq<char>,
)
    ensures
        ({
            let gone = doomed(layout, expired, records, journal_keys, file_keys);
            &&& (exists|i: int|
                0 <= i < expired.len() && key == layout.version_key(#[trigger] expired[i])) ==> gone.contains(key)
            &&& (exists|i: int|
                0 <= i < expired.len() && key == layout.snapshot_key(#[trigger] expired[i])) ==> gone.contains(key)
            &&& journal_keys.contains(key) && is_journal_of(layout, expired, key) ==> gone.contains(
                key,
            )
            &&& file_keys.contains(key) && is_file_key(layout, key) && !is_live(
                layout,
                records,
                key,
            ) ==> gone.contains(key)
        }),
{
    let gone = doomed(layout, expired, records, journal_keys, file_keys);
    let e = expired.len() as int;
    let goes_journal = |k: Seq<char>| is_journal_of(layout, expired, k);
    let goes_file = |k: Seq<char>| is_file_key(layout, k) && !is_live(layout, records, k);
    let journals = journal_keys.filter(goes_journal);
    let files = file_keys.filter(goes_file);
    broadcast use vstd::seq_lib::group_filter_ensures;

    if exists|i: int| 0 <= i < e && key == layout.version_key(#[trigger] expired[i]) {
        let i = choose|i: int| 0 <= i < e && key == layout.version_key(#[trigger] expired[i]);
        assert(gone[i] == key);
    }
    if exists|i: int| 0 <= i < e && key == layout.snapshot_key(#[trigger] expired[i]) {
        let i = choose|i: int| 0 <= i < e && key == layout.snapshot_key(#[trigger] expired[i]);
        assert(gone[e + i] == key);
    }
    if journal_keys.contains(key) && goes_journal(key) {
        let j = journal_keys.index_of(key);
        assert(goes_journal(journal_keys[j]));
        journal_keys.lemma_filter_contains(goes_journal, j);
        let k = journals.index_of(key);
        assert(gone[2 * e + k] == key);
    }
    if file_keys.contains(key) && goes_file(key) {
        let j = file_keys.index_of(key);
        assert(goes_file(file_keys[j]));
        file_keys.lemma_filter_contains(goes_file, j);
        let k = files.index_of(key);
        assert(gone[2 * e + journals.len() + k] == key);
    }
}

/// After a full prune nothing is left of an expired version: not its record, not the copy of that, not
/// one object below its journal directory, whatever it is called. A file that only expired versions
/// name, or none, is gone too.
pub proof fn law_nothing_is_left_of_an_expired_version(
    layout: Layout,
    store: Objects,
    expired: Seq<u64>,
    records: Seq<RecordView>,
    journal_keys: Seq<Seq<char>>,
    file_keys: Seq<Seq<char>>,
    seqno: u64,
    name: Seq<char>,
)
    requires
        all_journals_listed(layout, store, expired, journal_keys),
        all_files_listed(layout, store, file_keys),
    ensures
        ({
            let gone = doomed(layout, expired, records, journal_keys, file_keys);
            let after = without(store, gone);
            &&& expired.contains(seqno) ==> {
                &&& !after.contains_key(layout.version_key(seqno))
                &&& !after.contains_key(layout.snapshot_key(seqno))
                &&& !after.contains_key(layout.journal_dir_key(seqno) + "/"@ + name)
            }
            &&& !is_named(records, name) ==> !after.contains_key(
                layout.base_key() + "/files/"@ + name,
            )
        }),
{
    let gone = doomed(layout, expired, records, journal_keys, file_keys);
    let version = layout.version_key(seqno);
    let copy = layout.snapshot_key(seqno);
    let journal = layout.journal_key(seqno, name);
    let file = layout.file_key(name);
    if expired.contains(seqno) {
        let i = expired.index_of(seqno);
        assert(expired[i] == seqno);
        lemma_parts_go(layout, expired, records, journal_keys, file_keys, version);
        lemma_parts_go(layout, expired, records, journal_keys, file_keys, copy);
        lemma_parts_go(layout, expired, records, journal_keys, file_keys, journal);
        assert(version == layout.version_key(expired[i]));
        assert(copy == layout.snapshot_key(expired[i]));
        let dir = layout.journal_dir_key(expired[i]) + "/"@;
        assert(journal.take(dir.len() as int) =~= dir);
        assert(is_journal_of(layout, expired, journal));
        assert(journal == layout.journal_key(expired[i], name));
    }
    if !is_named(records, name) {
        lemma_live_is_named(layout, records, name);
        lemma_parts_go(layout, expired, records, journal_keys, file_keys, file);
        reveal_strlit("/files");
        reveal_strlit("/");
        reveal_strlit("/files/");
        let dir = layout.base_key() + "/files"@ + "/"@;
        assert(file.take(dir.len() as int) =~= dir);
        assert(is_file_key(layout, file));
        assert(file == layout.base_key() + "/files/"@ + name);
    }
}

/// Whatever a prune deletes, and wherever it stops: it is the record of an expired version, the copy
/// of that, an object below its journal directory, or a file that no retained version names. Nothing
/// else in the bucket is touched, of this database or another.
pub proof fn law_nothing_else_is_deleted(
    layout: Layout,
    expired: Seq<u64>,
    records: Seq<RecordView>,
    journal_keys: Seq<Seq<char>>,
    file_keys: Seq<Seq<char>>,
    n: int,
    key: Seq<char>,
)
    requires
        0 <= n <= doomed(layout, expired, records, journal_keys, file_keys).len(),
        doomed(layout, expired, records, journal_keys, file_keys).take(n).contains(key),
    ensures
        ({
            ||| exists|seqno: u64|
                #[trigger] expired.contains(seqno) && key == layout.version_key(seqno)
            ||| exists|seqno: u64|
                #[trigger] expired.contains(seqno) && key == layout.snapshot_key(seqno)
            ||| exists|seqno: u64, name: Seq<char>|
                expired.contains(seqno) && key == #[trigger] layout.journal_key(seqno, name)
            ||| exists|id: Seq<char>|
                !is_named(records, id) && key == #[trigger] layout.file_key(id)
        }),
{
    lemma_doomed(layout, expired, records, journal_keys, file_keys, n, key);
    if exists|i: int| 0 <= i < expired.len() && key == layout.version_key(#[trigger] expired[i]) {
        let i = choose|i: int|
            0 <= i < expired.len() && key == layout.version_key(#[trigger] expired[i]);
        assert(expired.contains(expired[i]));
    } else if exists|i: int|
        0 <= i < expired.len() && key == layout.snapshot_key(#[trigger] expired[i]) {
        let i = choose|i: int|
            0 <= i < expired.len() && key == layout.snapshot_key(#[trigger] expired[i]);
        assert(expired.contains(expired[i]));
    } else if is_journal_of(layout, expired, key) {
        let i = choose|i: int|
            0 <= i < expired.len() && starts_with(
                key,
                #[trigger] layout.journal_dir_key(expired[i]) + "/"@,
            );
        let dir = layout.journal_dir_key(expired[i]) + "/"@;
        let name = key.skip(dir.len() as int);
        assert(key =~= dir + name);
        assert(expired.contains(expired[i]));
        assert(key == layout.journal_key(expired[i], name));
    } else {
        reveal_strlit("/files");
        reveal_strlit("/");
        reveal_strlit("/files/");
        let dir = layout.base_key() + "/files"@ + "/"@;
        let id = key.skip(dir.len() as int);
        assert(key =~= dir + id);
        assert(dir =~= layout.base_key() + "/files/"@);
        assert(key == layout.file_key(id));
        lemma_live_is_named(layout, records, id);
    }
}

/// Wherever a prune stops, a retained version has lost nothing: its record, the copy of that, every
/// object below its journal directory and every file that a retained version names are in the bucket
/// as before.
pub proof fn law_a_retained_version_loses_nothing(
    layout: Layout,
    store: Objects,
    expired: Seq<u64>,
    retained: Seq<u64>,
    records: Seq<RecordView>,
    journal_keys: Seq<Seq<char>>,
    file_keys: Seq<Seq<char>>,
    n: int,
    seqno: u64,
    name: Seq<char>,
)
    requires
        ascending(expired + retained),
        0 <= n <= doomed(layout, expired, records, journal_keys, file_keys).len(),
    ensures
        ({
            let gone = doomed(layout, expired, records, journal_keys, file_keys).take(n);
            let after = without(store, gone);
            let stays = |key: Seq<char>|
                after.contains_key(key) == store.contains_key(key) && (store.contains_key(key)
                    ==> after[key] == store[key]);
            &&& retained.contains(seqno) ==> {
                &&& stays(layout.version_key(seqno))
                &&& stays(layout.snapshot_key(seqno))
                &&& stays(layout.journal_dir_key(seqno) + "/"@ + name)
            }
            &&& is_named(records, name) ==> stays(layout.base_key() + "/files/"@ + name)
        }),
{
    let gone = doomed(layout, expired, records, journal_keys, file_keys).take(n);
    let version = layout.version_key(seqno);
    let copy = layout.snapshot_key(seqno);
    let journal = layout.journal_key(seqno, name);
    let file = layout.file_key(name);
    assert(journal == layout.journal_dir_key(seqno) + "/"@ + name);
    assert(file == layout.base_key() + "/files/"@ + name);
    if retained.contains(seqno) {
        let j = retained.index_of(seqno);
        assert(!expired.contains(seqno)) by {
            if expired.contains(seqno) {
                let i = expired.index_of(seqno);
                assert((expired + retained)[i] == seqno);
                assert((expired + retained)[expired.len() + j] == seqno);
            }
        }
    }
    assert forall|key: Seq<char>|
        #![trigger gone.contains(key)]
        (retained.contains(seqno) && (key == version || key == copy || key == journal)) || (
        is_named(records, name) && key == file) implies !gone.contains(key) by {
        if gone.contains(key) {
            law_nothing_else_is_deleted(
                layout,
                expired,
                records,
                journal_keys,
                file_keys,
                n,
                key,
            );
            if exists|s: u64| #[trigger] expired.contains(s) && key == layout.version_key(s) {
                let s = choose|s: u64|
                    #[trigger] expired.contains(s) && key == layout.version_key(s);
                law_keys_are_distinct(layout, name, name, s, seqno, name, name);
            } else if exists|s: u64| #[trigger] expired.contains(s) && key == layout.snapshot_key(s) {
                let s = choose|s: u64|
                    #[trigger] expired.contains(s) && key == layout.snapshot_key(s);
                law_keys_are_distinct(layout, name, name, s, seqno, name, name);
                law_keys_are_distinct(layout, name, name, seqno, s, name, name);
            } else if exists|s: u64, other: Seq<char>|
                expired.contains(s) && key == #[trigger] layout.journal_key(s, other) {
                let (s, other) = choose|s: u64, other: Seq<char>|
                    expired.contains(s) && key == #[trigger] layout.journal_key(s, other);
                law_keys_are_distinct(layout, name, name, s, seqno, other, name);
                law_keys_are_distinct(layout, name, name, seqno, s, other, name);
            } else {
                let id = choose|id: Seq<char>|
                    !is_named(records, id) && key == #[trigger] layout.file_key(id);
                law_keys_are_distinct(layout, id, name, seqno, seqno, name, name);
            }
        }
    }
}

/// What a store lists under the prefixes of a prune is all that the laws above ask for: every object
/// below the journal directories of the expired versions, and every file.
pub proof fn law_the_prefixes_list_everything(
    layout: Layout,
    store: Objects,
    expired: Seq<u64>,
    journal_keys: Seq<Seq<char>>,
    file_keys: Seq<Seq<char>>,
)
    requires
        forall|i: int, key: Seq<char>|
            #![trigger lists(layout.journal_dir_key(expired[i]), key)]
            0 <= i < expired.len() && store.contains_key(key) && lists(
                layout.journal_dir_key(expired[i]),
                key,
            ) ==> journal_keys.contains(key),
        forall|key: Seq<char>| #[trigger]
            store.contains_key(key) && lists(layout.base_key() + "/files"@, key)
                ==> file_keys.contains(key),
    ensures
        all_journals_listed(layout, store, expired, journal_keys),
        all_files_listed(layout, store, file_keys),
{
    assert forall|i: int, name: Seq<char>|
        #![trigger layout.journal_key(expired[i], name)]
        0 <= i < expired.len() && store.contains_key(layout.journal_key(expired[i], name)) implies journal_keys.contains(
        layout.journal_key(expired[i], name),
    ) by {
        let dir = layout.journal_dir_key(expired[i]);
        law_a_listing_is_recursive(dir, name, dir);
        assert(lists(dir, layout.journal_key(expired[i], name)));
    }
    assert forall|id: Seq<char>|
        #![trigger layout.file_key(id)]
        store.contains_key(layout.file_key(id)) implies file_keys.contains(layout.file_key(id)) by {
        reveal_strlit("/files");
        reveal_strlit("/");
        reveal_strlit("/files/");
        let dir = layout.base_key() + "/files"@;
        law_a_listing_is_recursive(dir, id, dir);
        assert(dir + "/"@ + id =~= layout.file_key(id));
    }
}

/// The newest versions stay: where the two parts of a window are in ascending order, every retained
/// version is newer than every expired one, and none is in both.
pub proof fn law_the_newest_versions_stay(
    expired: Seq<u64>,
    retained: Seq<u64>,
    older: u64,
    newer: u64,
)
    requires
        ascending(expired + retained),
        expired.contains(older),
        retained.contains(newer),
    ensures
        older < newer,
{
    let i = expired.index_of(older);
    let j = retained.index_of(newer);
    assert((expired + retained)[i] == older);
    assert((expired + retained)[expired.len() + j] == newer);
}

/// What a prune reads of the retained records is what they say, one by one.
pub proof fn law_retained_records_are_read_as_they_are(records: Seq<VersionRecord>, i: int)
    ensures
        record_views(records).len() == records.len(),
        0 <= i < records.len() ==> record_views(records)[i] == records[i]@,
{
}

} // verus!
