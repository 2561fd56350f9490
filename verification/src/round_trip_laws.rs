//! The law that the library is for: a restore gives back what was replicated.

use vstd::prelude::*;
use crate::checksum::{digest_for, fnv1a};
use crate::compress::{gunzip_stream, gzip_stream};
use crate::history::{lossless, recorded, Decode};
use crate::layout::Layout;
use crate::layout_laws::law_keys_are_distinct;
use crate::object_store::Objects;
use crate::replication_laws::{found_fate, replicated, settle, settled, ship_journals};
use crate::replicator::{ReplicatorView, VersionView};
use crate::restore::{lock_file, restore_actions, ActionView};
use crate::restore_laws::{
    carried_out, file_is_good, journal_is_good, law_restore_is_exact, restorable,
    restored, stored_files, stored_journals,
};
use crate::types::{Content, Digest, RecordView};
use crate::upload::{
    content_digests, kept_ids, known_digests, fresh_digests, Fate, Progress, StepView,
};
use crate::upload_laws::{
    begins, law_files_are_uploaded_once, lemma_run_on_track, lemma_uploaded_grows,
    lemma_uploaded_with, run, same_job, uploaded, Surroundings,
};

verus! {

/// The bytes that belong to each file id, forever: files are immutable.
pub type Truth = spec_fn(Seq<char>) -> Seq<u8>;

/// Each file in the store has the bytes that belong to its id.
pub open spec fn store_is_true(layout: Layout, store: Objects, truth: Truth) -> bool {
    forall|id: Seq<char>| #[trigger]
        store.contains_key(layout.file_key(id)) ==> store[layout.file_key(id)] == truth(id)
}

/// Each file of the version that is on the disk has the bytes that belong to its id.
pub open spec fn disk_is_true(p: Progress, around: Surroundings, truth: Truth) -> bool {
    forall|i: int|
        0 <= i < p.version.files.len() ==> (#[trigger] around.disk[i] matches Some(bytes) ==> bytes
            == truth(p.version.files[i]))
}

/// Each hash in the list is that of the bytes that belong to its path.
pub open spec fn digests_are_true(list: Seq<Digest>, truth: Truth) -> bool {
    forall|path: Seq<char>|
        #![trigger digest_for(list, path)]
        digest_for(list, path) matches Some(hash) ==> hash == fnv1a(truth(path))
}

/// No two journals of the version have the same name.
pub open spec fn journal_names_are_distinct(p: Progress) -> bool {
    forall|i: int, j: int|
        0 <= i < j < p.version.journals.len() ==> (#[trigger] p.version.journals[i]).path != (
        #[trigger] p.version.journals[j]).path
}

/// Each journal of the version can be compressed, and decompresses to itself.
pub open spec fn journals_round_trip(p: Progress) -> bool {
    forall|j: int|
        0 <= j < p.version.journals.len() ==> (gzip_stream(
            (#[trigger] p.version.journals[j]).bytes,
        ) matches Some(z) && gunzip_stream(z) == Some(p.version.journals[j].bytes))
}

/// The files with these ids.
pub open spec fn true_files(truth: Truth, ids: Seq<Seq<char>>) -> Seq<Content> {
    Seq::new(ids.len(), |i: int| Content { path: ids[i], bytes: truth(ids[i]) })
}

proof fn lemma_one_more_digest(list: Seq<Digest>, id: Seq<char>, bytes: Seq<u8>, truth: Truth)
    requires
        digests_are_true(list, truth),
        bytes == truth(id),
    ensures
        digests_are_true(list.push(Digest { path: id, hash: fnv1a(bytes) }), truth),
{
    let all = list.push(Digest { path: id, hash: fnv1a(bytes) });
    assert(all.drop_last() =~= list);
    assert forall|path: Seq<char>| (#[trigger] digest_for(all, path)) is Some implies digest_for(
        all,
        path,
    ) == Some(fnv1a(truth(path))) by {
        assert(digest_for(list, path) matches Some(hash) ==> hash == fnv1a(truth(path)));
    }
}

proof fn lemma_settle(p: Progress, store: Objects, around: Surroundings, truth: Truth)
    requires
        p.fates.len() <= p.version.files.len(),
        uploaded(p, store, 0),
        store_is_true(p.layout, store, truth),
        disk_is_true(p, around, truth),
        digests_are_true(p.digests(), truth),
    ensures
        ({
            let (last, objects) = settle(p, store, around);
            &&& same_job(p, last)
            &&& last.fates.len() == p.version.files.len()
            &&& uploaded(last, objects, 0)
            &&& store_is_true(p.layout, objects, truth)
            &&& digests_are_true(last.digests(), truth)
        }),
    decreases p.version.files.len() - p.fates.len(),
{
    if p.fates.len() < p.version.files.len() {
        let id = p.current_id();
        let key = p.layout.file_key(id);
        if store.contains_key(key) {
            let q = p.with(found_fate(p, store));
            assert(q.fates.drop_last() =~= p.fates);
            lemma_uploaded_with(p, found_fate(p, store), store);
            if p.current_is_known() {
                assert(q.digests() =~= p.digests());
            } else {
                assert(q.digests() =~= p.digests().push(
                    Digest { path: id, hash: fnv1a(store[key]) },
                ));
                lemma_one_more_digest(p.digests(), id, store[key], truth);
            }
            lemma_settle(q, store, around, truth);
        } else {
            match around.disk[p.fates.len() as int] {
                Some(bytes) => {
                    let q = p.with(Fate::Uploaded(bytes));
                    let objects = store.insert(key, bytes);
                    assert(q.fates.drop_last() =~= p.fates);
                    lemma_uploaded_grows(p, store, objects, 0);
                    lemma_uploaded_with(p, Fate::Uploaded(bytes), objects);
                    assert(q.digests() =~= p.digests().push(
                        Digest { path: id, hash: fnv1a(bytes) },
                    ));
                    lemma_one_more_digest(p.digests(), id, bytes, truth);
                    assert forall|other: Seq<char>| #[trigger]
                        objects.contains_key(p.layout.file_key(other)) implies objects[p.layout.file_key(
                        other,
                    )] == truth(other) by {
                        law_keys_are_distinct(p.layout, id, other, 0, 0, id, id);
                        if other != id {
                            assert(store.contains_key(p.layout.file_key(other)));
                        }
                    }
                    lemma_settle(q, objects, around, truth);
                },
                None => {
                    let q = p.with(Fate::Vanished);
                    assert(q.fates.drop_last() =~= p.fates);
                    lemma_uploaded_with(p, Fate::Vanished, store);
                    lemma_settle(q, store, around, truth);
                },
            }
        }
    }
}

/// What is known of a path is what the list that it was taken from says.
pub proof fn lemma_known_digests(list: Seq<Digest>, paths: Seq<Seq<char>>, path: Seq<char>)
    ensures
        digest_for(known_digests(list, paths), path) == if paths.contains(path) {
            digest_for(list, path)
        } else {
            None
        },
    decreases paths.len(),
{
    if paths.len() > 0 {
        let rest = known_digests(list, paths.drop_last());
        lemma_known_digests(list, paths.drop_last(), path);
        if paths.contains(path) && paths.last() != path {
            let i = paths.index_of(path);
            assert(paths.drop_last()[i] == path);
        }
        if paths.drop_last().contains(path) {
            let i = paths.drop_last().index_of(path);
            assert(paths[i] == path);
        }
        if let Some(hash) = digest_for(list, paths.last()) {
            let all = rest.push(Digest { path: paths.last(), hash });
            assert(all.drop_last() =~= rest);
        }
    }
}

/// Where no name comes twice, each journal's hash is found under its name.
pub proof fn lemma_journal_digest(list: Seq<Content>, i: int)
    requires
        0 <= i < list.len(),
        forall|a: int, b: int|
            0 <= a < b < list.len() ==> (#[trigger] list[a]).path != (#[trigger] list[b]).path,
    ensures
        digest_for(content_digests(list), list[i].path) == Some(fnv1a(list[i].bytes)),
    decreases list.len(),
{
    assert(content_digests(list).drop_last() =~= content_digests(list.drop_last()));
    if i < list.len() - 1 {
        assert(list[i].path != list[list.len() - 1].path);
        assert(list.drop_last()[i] == list[i]);
        lemma_journal_digest(list.drop_last(), i);
    }
}

/// Shipping journals touches no other key.
pub proof fn lemma_ship_keeps(p: Progress, store: Objects, at: int, key: Seq<char>)
    requires
        0 <= at <= p.version.journals.len(),
        forall|j: int|
            at <= j < p.version.journals.len() ==> p.layout.journal_key(
                p.version.seqno,
                (#[trigger] p.version.journals[j]).path,
            ) != key,
    ensures
        ship_journals(p, store, at).contains_key(key) == store.contains_key(key),
        ship_journals(p, store, at)[key] == store[key],
    decreases p.version.journals.len() - at,
{
    if at < p.version.journals.len() {
        let journal = p.version.journals[at];
        let k = p.layout.journal_key(p.version.seqno, journal.path);
        lemma_ship_keeps(p, store.insert(k, gzip_stream(journal.bytes)->0), at + 1, key);
    }
}

/// Shipping journals stores each as it was compressed.
proof fn lemma_ship_stores(p: Progress, store: Objects, at: int, i: int)
    requires
        0 <= at <= i < p.version.journals.len(),
        journal_names_are_distinct(p),
    ensures
        ({
            let key = p.layout.journal_key(p.version.seqno, p.version.journals[i].path);
            let objects = ship_journals(p, store, at);
            objects.contains_key(key) && objects[key] == gzip_stream(p.version.journals[i].bytes)->0
        }),
    decreases p.version.journals.len() - at,
{
    let journal = p.version.journals[at];
    let k = p.layout.journal_key(p.version.seqno, journal.path);
    let next = store.insert(k, gzip_stream(journal.bytes)->0);
    if at < i {
        lemma_ship_stores(p, next, at + 1, i);
    } else {
        assert forall|j: int| at + 1 <= j < p.version.journals.len() implies p.layout.journal_key(
            p.version.seqno,
            (#[trigger] p.version.journals[j]).path,
        ) != k by {
            assert(p.version.journals[i].path != p.version.journals[j].path);
            law_keys_are_distinct(
                p.layout,
                k,
                k,
                p.version.seqno,
                p.version.seqno,
                journal.path,
                p.version.journals[j].path,
            );
        }
        lemma_ship_keeps(p, next, at + 1, k);
    }
}

/// What the bucket holds under the keys of the files, when a version is replicated.
pub proof fn lemma_replicated_files(first: Progress, store: Objects, around: Surroundings, id: Seq<char>)
    ensures
        ({
            let files = settle(first, store, around).1;
            let objects = replicated(first, store, around);
            let key = first.layout.file_key(id);
            objects.contains_key(key) == files.contains_key(key) && objects[key] == files[key]
        }),
{
    let layout = first.layout;
    let (last, files) = settle(first, store, around);
    let seqno = first.version.seqno;
    let key = layout.file_key(id);
    lemma_settle_same_job(first, store, around);
    assert forall|j: int| 0 <= j < last.version.journals.len() implies layout.journal_key(
        seqno,
        (#[trigger] last.version.journals[j]).path,
    ) != key by {
        let name = last.version.journals[j].path;
        law_keys_are_distinct(layout, id, id, seqno, seqno, name, name);
    }
    lemma_ship_keeps(last, files, 0, key);
    law_keys_are_distinct(layout, id, id, seqno, seqno, id, id);
}

/// What the bucket holds under the keys of the journals and of the record of a replicated version.
pub proof fn lemma_replicated_objects(first: Progress, store: Objects, around: Surroundings)
    requires
        journal_names_are_distinct(first),
    ensures
        ({
            let objects = replicated(first, store, around);
            let record = settled(first, store, around).record(around.now);
            &&& forall|i: int|
                #![trigger first.version.journals[i]]
                0 <= i < first.version.journals.len() ==> {
                    let key = first.layout.journal_key(
                        first.version.seqno,
                        first.version.journals[i].path,
                    );
                    objects.contains_key(key) && objects[key] == gzip_stream(
                        first.version.journals[i].bytes,
                    )->0
                }
            &&& objects.contains_key(first.layout.version_key(record.seqno))
            &&& objects[first.layout.version_key(record.seqno)] == (around.encode)(record)
        }),
{
    let layout = first.layout;
    let (last, files) = settle(first, store, around);
    let objects = replicated(first, store, around);
    let seqno = first.version.seqno;
    lemma_settle_same_job(first, store, around);
    assert forall|i: int|
        #![trigger first.version.journals[i]]
        0 <= i < first.version.journals.len() implies {
        let key = layout.journal_key(seqno, first.version.journals[i].path);
        objects.contains_key(key) && objects[key] == gzip_stream(first.version.journals[i].bytes)->0
    } by {
        let name = first.version.journals[i].path;
        lemma_ship_stores(last, files, 0, i);
        law_keys_are_distinct(layout, name, name, seqno, seqno, name, name);
    }
    law_keys_are_distinct(layout, layout.db@, layout.db@, seqno, seqno, layout.db@, layout.db@);
}

/// A restore gives back what was replicated: once a version is replicated, the bucket holds its
/// record, and restoring it lands exactly the files that it names, each with the bytes that belong
/// to its id, its journals and its pointer files as they were captured, and an empty lock.
///
/// A file id stands for one byte sequence forever, and two journals never share a name.
pub proof fn law_restore_gives_back_what_was_replicated(
    first: Progress,
    store: Objects,
    around: Surroundings,
    decode: Decode,
    truth: Truth,
)
    requires
        begins(first),
        store_is_true(first.layout, store, truth),
        disk_is_true(first, around, truth),
        digests_are_true(first.known, truth),
        journal_names_are_distinct(first),
        lossless(around.encode, decode),
    ensures
        ({
            let record = settled(first, store, around).record(around.now);
            let objects = replicated(first, store, around);
            &&& recorded(first.layout, objects, decode, first.version.seqno) == Some(record)
            &&& journals_round_trip(first) ==> carried_out(
                objects,
                record,
                restore_actions(first.layout, record),
            ) == Some(
                (true_files(truth, record.file_ids) + first.version.journals
                    + first.version.pointers).push(lock_file()),
            )
        }),
{
    let layout = first.layout;
    assert(kept_ids(first.version.files, first.fates) =~= Seq::empty());
    assert(fresh_digests(first.version.files, first.fates) =~= Seq::empty());
    assert(first.digests() =~= first.known);
    lemma_settle(first, store, around, truth);
    let (last, files) = settle(first, store, around);
    let record = last.record(around.now);
    let objects = replicated(first, store, around);
    lemma_replicated_objects(first, store, around);
    assert(decode((around.encode)(record)) == Some(record));
    if journals_round_trip(first) {
        assert forall|i: int| 0 <= i < record.file_ids.len() implies file_is_good(
            layout,
            objects,
            record,
            #[trigger] record.file_ids[i],
        ) && objects[layout.file_key(record.file_ids[i])] == truth(record.file_ids[i]) by {
            let id = record.file_ids[i];
            let key = layout.file_key(id);
            assert(files.contains_key(key));
            lemma_replicated_files(first, store, around, id);
            lemma_known_digests(last.digests(), record.file_ids, id);
            assert(digest_for(last.digests(), id) matches Some(hash) ==> hash == fnv1a(truth(id)));
        }
        let journals = first.version.journals;
        assert forall|i: int| 0 <= i < record.journals.len() implies journal_is_good(
            layout,
            objects,
            record,
            #[trigger] record.journals[i],
        ) && gunzip_stream(objects[layout.journal_key(record.seqno, record.journals[i])]) == Some(
            journals[i].bytes,
        ) by {
            assert(record.journals[i] == journals[i].path);
            lemma_journal_digest(journals, i);
        }
        law_restore_is_exact(layout, objects, record);
        assert(stored_files(layout, objects, record) =~= true_files(truth, record.file_ids));
        assert(stored_journals(layout, objects, record) =~= journals);
    }
}

/// The directory tree survives, empty directories included: the record names every directory that
/// was captured, and a restore makes each of them before it lands a file.
pub proof fn law_directories_survive(
    first: Progress,
    store: Objects,
    around: Surroundings,
    i: int,
)
    requires
        0 <= i < first.version.dirs.len(),
    ensures
        ({
            let record = settled(first, store, around).record(around.now);
            &&& record.dirs == first.version.dirs
            &&& restore_actions(first.layout, record)[i] == ActionView::MakeDir(
                first.version.dirs[i],
            )
        }),
{
    lemma_settle_same_job(first, store, around);
}

/// A replicated version is a re-base point exactly if that was due when it was begun.
pub proof fn law_an_outcome_says_what_was_due(
    replicator: ReplicatorView,
    version: VersionView,
    store: Objects,
    around: Surroundings,
)
    ensures
        ({
            let last = settled(replicator.begun(version), store, around);
            last.outcome(last.record(around.now)).is_snapshot == replicator.rebases()
        }),
{
    lemma_settle_same_job(replicator.begun(version), store, around);
}

pub proof fn lemma_settle_same_job(p: Progress, store: Objects, around: Surroundings)
    ensures
        same_job(p, settled(p, store, around)),
    decreases p.version.files.len() - p.fates.len(),
{
    if p.fates.len() < p.version.files.len() {
        let key = p.layout.file_key(p.current_id());
        if store.contains_key(key) {
            lemma_settle_same_job(p.with(found_fate(p, store)), store, around);
        } else {
            match around.disk[p.fates.len() as int] {
                Some(bytes) => {
                    lemma_settle_same_job(
                        p.with(Fate::Uploaded(bytes)),
                        store.insert(key, bytes),
                        around,
                    );
                },
                None => {
                    lemma_settle_same_job(p.with(Fate::Vanished), store, around);
                },
            }
        }
    }
}

/// Nothing is left out of a version whose files are all in the store or on the disk: its record
/// names them all.
pub proof fn law_no_file_is_left_out(first: Progress, store: Objects, around: Surroundings)
    requires
        begins(first),
        forall|i: int|
            0 <= i < first.version.files.len() ==> store.contains_key(
                first.layout.file_key(first.version.files[i]),
            ) || (#[trigger] around.disk[i]) is Some,
    ensures
        settled(first, store, around).record(around.now).file_ids == first.version.files,
{
    assert(kept_ids(first.version.files, first.fates) =~= first.version.files.take(0));
    lemma_no_file_is_left_out(first, store, around);
}

proof fn lemma_no_file_is_left_out(p: Progress, store: Objects, around: Surroundings)
    requires
        p.fates.len() <= p.version.files.len(),
        kept_ids(p.version.files, p.fates) == p.version.files.take(p.fates.len() as int),
        forall|i: int|
            p.fates.len() <= i < p.version.files.len() ==> store.contains_key(
                p.layout.file_key(p.version.files[i]),
            ) || (#[trigger] around.disk[i]) is Some,
    ensures
        settled(p, store, around).record(around.now).file_ids == p.version.files,
    decreases p.version.files.len() - p.fates.len(),
{
    let n = p.fates.len() as int;
    if n < p.version.files.len() {
        let key = p.layout.file_key(p.current_id());
        assert(p.version.files.take(n + 1) =~= p.version.files.take(n).push(p.current_id()));
        assert(around.disk[n] is Some || store.contains_key(key));
        if store.contains_key(key) {
            let q = p.with(found_fate(p, store));
            assert(q.fates.drop_last() =~= p.fates);
            lemma_no_file_is_left_out(q, store, around);
        } else {
            let bytes = around.disk[n]->0;
            let q = p.with(Fate::Uploaded(bytes));
            assert(q.fates.drop_last() =~= p.fates);
            lemma_no_file_is_left_out(q, store.insert(key, bytes), around);
        }
    } else {
        assert(p.version.files.take(n) =~= p.version.files);
    }
}

/// What the laws above take for granted goes on to hold: after a version is replicated, the files
/// in the bucket still have the bytes that belong to their ids, and so do the known hashes.
pub proof fn law_truth_is_kept(
    first: Progress,
    store: Objects,
    around: Surroundings,
    truth: Truth,
)
    requires
        begins(first),
        store_is_true(first.layout, store, truth),
        disk_is_true(first, around, truth),
        digests_are_true(first.known, truth),
    ensures
        ({
            let last = settled(first, store, around);
            let outcome = last.outcome(last.record(around.now));
            &&& store_is_true(first.layout, replicated(first, store, around), truth)
            &&& digests_are_true(first.known + outcome.fresh, truth)
        }),
{
    assert(kept_ids(first.version.files, first.fates) =~= Seq::empty());
    assert(fresh_digests(first.version.files, first.fates) =~= Seq::empty());
    assert(first.digests() =~= first.known);
    lemma_settle(first, store, around, truth);
    let objects = replicated(first, store, around);
    let files = settle(first, store, around).1;
    assert forall|id: Seq<char>| #[trigger]
        objects.contains_key(first.layout.file_key(id)) implies objects[first.layout.file_key(id)]
        == truth(id) by {
        lemma_replicated_files(first, store, around, id);
        assert(files.contains_key(first.layout.file_key(id)));
    }
}

/// While another version is replicated, the record and the journals of a version stay as they are.
proof fn lemma_other_versions_stay(
    first: Progress,
    store: Objects,
    around: Surroundings,
    n: nat,
    seqno: u64,
    name: Seq<char>,
)
    requires
        begins(first),
        seqno != first.version.seqno,
    ensures
        ({
            let objects = run(first.after_files(), store, around, n).1;
            let version = first.layout.version_key(seqno);
            let journal = first.layout.journal_key(seqno, name);
            &&& objects.contains_key(version) == store.contains_key(version)
            &&& objects[version] == store[version]
            &&& objects.contains_key(journal) == store.contains_key(journal)
            &&& objects[journal] == store[journal]
        }),
    decreases n,
{
    if n > 0 {
        let (step, objects) = run(first.after_files(), store, around, (n - 1) as nat);
        let layout = first.layout;
        lemma_run_on_track(first, store, around, (n - 1) as nat);
        lemma_other_versions_stay(first, store, around, (n - 1) as nat, seqno, name);
        match step {
            StepView::PutFile(p, bytes) => {
                law_keys_are_distinct(layout, p.current_id(), name, seqno, seqno, name, name);
            },
            StepView::PutJournal(p, at, object) => {
                let other = p.version.journals[at].path;
                law_keys_are_distinct(layout, name, name, seqno, p.version.seqno, other, name);
                law_keys_are_distinct(layout, name, name, seqno, p.version.seqno, name, other);
            },
            StepView::PutRecord(p, record) | StepView::PutSnapshot(p, record) => {
                law_keys_are_distinct(layout, name, name, seqno, record.seqno, name, name);
                law_keys_are_distinct(layout, name, name, record.seqno, seqno, name, name);
            },
            _ => {},
        }
    }
}

/// The history stays: whatever is replicated later, and wherever that stops, an earlier version is
/// still on record as it was, and still restores to the same files.
pub proof fn law_earlier_versions_stay(
    first: Progress,
    store: Objects,
    around: Surroundings,
    decode: Decode,
    n: nat,
    record: RecordView,
)
    requires
        begins(first),
        record.seqno != first.version.seqno,
    ensures
        ({
            let objects = run(first.after_files(), store, around, n).1;
            let layout = first.layout;
            let actions = restore_actions(layout, record);
            &&& recorded(layout, objects, decode, record.seqno) == recorded(
                layout,
                store,
                decode,
                record.seqno,
            )
            &&& carried_out(store, record, actions) is Some ==> carried_out(objects, record, actions)
                == carried_out(store, record, actions)
        }),
{
    let objects = run(first.after_files(), store, around, n).1;
    let layout = first.layout;
    lemma_other_versions_stay(first, store, around, n, record.seqno, layout.db@);
    law_restore_is_exact(layout, store, record);
    law_restore_is_exact(layout, objects, record);
    if restorable(layout, store, record) {
        assert forall|i: int| 0 <= i < record.file_ids.len() implies file_is_good(
            layout,
            objects,
            record,
            #[trigger] record.file_ids[i],
        ) && objects[layout.file_key(record.file_ids[i])] == store[layout.file_key(
            record.file_ids[i],
        )] by {
            assert(file_is_good(layout, store, record, record.file_ids[i]));
            law_files_are_uploaded_once(first, store, around, n, record.file_ids[i]);
        }
        assert forall|i: int| 0 <= i < record.journals.len() implies journal_is_good(
            layout,
            objects,
            record,
            #[trigger] record.journals[i],
        ) && objects[layout.journal_key(record.seqno, record.journals[i])]
            == store[layout.journal_key(record.seqno, record.journals[i])] by {
            assert(journal_is_good(layout, store, record, record.journals[i]));
            lemma_other_versions_stay(first, store, around, n, record.seqno, record.journals[i]);
        }
        assert(restored(layout, objects, record) =~= restored(layout, store, record)) by {
            assert(stored_files(layout, objects, record) =~= stored_files(layout, store, record));
            assert(stored_journals(layout, objects, record) =~= stored_journals(
                layout,
                store,
                record,
            ));
        }
    }
}

} // verus!
