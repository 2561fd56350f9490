//! Laws of integrity: the content hash of everything that a record names is on record, so what was
//! altered in the bucket is refused before it lands.

use vstd::prelude::*;
use crate::checksum::{
    digest_for, fnv1a, intact, law_one_changed_byte_is_detected, lemma_digest_for_concat,
};
use crate::compress::gunzip_stream;
use crate::layout::Layout;
use crate::layout_laws::law_keys_are_distinct;
use crate::object_store::Objects;
use crate::replication_laws::{found_fate, replicated, settle, settled};
use crate::replicator::ReplicatorView;
use crate::restore::restore_actions;
use crate::restore_laws::{carried_out, file_is_good, journal_is_good, law_restore_is_exact};
use crate::round_trip_laws::{
    journal_names_are_distinct, lemma_journal_digest, lemma_known_digests, lemma_replicated_files,
};
use crate::types::{Digest, RecordView};
use crate::upload::{fresh_digests, kept_ids, Fate, Progress};
use crate::upload_laws::{
    begins, lemma_uploaded_grows, lemma_uploaded_with, same_job, uploaded, Surroundings,
};

verus! {

/// Each hash in the list is that of the file that the store holds for its path, if it holds one. It
/// is so of an empty list.
pub open spec fn digests_match(layout: Layout, store: Objects, list: Seq<Digest>) -> bool {
    forall|path: Seq<char>|
        #![trigger digest_for(list, path)]
        store.contains_key(layout.file_key(path)) ==> (digest_for(list, path) matches Some(hash) ==> hash
            == fnv1a(store[layout.file_key(path)]))
}

/// The hash of each kept file is known.
spec fn all_known(p: Progress) -> bool {
    let kept = kept_ids(p.version.files, p.fates);
    forall|i: int| 0 <= i < kept.len() ==> digest_for(p.digests(), #[trigger] kept[i]) is Some
}

/// One more hash, of what the store now holds for the path.
proof fn lemma_one_more_match(
    layout: Layout,
    store: Objects,
    list: Seq<Digest>,
    id: Seq<char>,
    bytes: Seq<u8>,
)
    requires
        digests_match(layout, store, list),
    ensures
        digests_match(
            layout,
            store.insert(layout.file_key(id), bytes),
            list.push(Digest { path: id, hash: fnv1a(bytes) }),
        ),
{
    let all = list.push(Digest { path: id, hash: fnv1a(bytes) });
    let objects = store.insert(layout.file_key(id), bytes);
    assert(all.drop_last() =~= list);
    assert forall|path: Seq<char>|
        #![trigger digest_for(all, path)]
        objects.contains_key(layout.file_key(path)) implies (digest_for(all, path) matches Some(hash) ==> hash
        == fnv1a(objects[layout.file_key(path)])) by {
        law_keys_are_distinct(layout, id, path, 0, 0, id, id);
        if path != id {
            assert(digest_for(all, path) == digest_for(list, path));
            assert(store.contains_key(layout.file_key(path)));
        }
    }
}

/// One more kept file whose hash is known.
proof fn lemma_one_more_known(p: Progress, fate: Fate)
    requires
        all_known(p),
        fate is Present ==> p.current_is_known(),
    ensures
        all_known(p.with(fate)),
        p.with(fate).digests() == (match fate {
            Fate::Uploaded(bytes) | Fate::Fetched(bytes) => p.digests().push(
                Digest { path: p.current_id(), hash: fnv1a(bytes) },
            ),
            _ => p.digests(),
        }),
{
    let q = p.with(fate);
    assert(q.fates.drop_last() =~= p.fates);
    match fate {
        Fate::Uploaded(bytes) | Fate::Fetched(bytes) => {
            assert(q.digests() =~= p.digests().push(
                Digest { path: p.current_id(), hash: fnv1a(bytes) },
            ));
            assert(q.digests().drop_last() =~= p.digests());
        },
        _ => {
            assert(q.digests() =~= p.digests());
        },
    }
    let kept = kept_ids(p.version.files, p.fates);
    let now = kept_ids(q.version.files, q.fates);
    assert forall|i: int| 0 <= i < now.len() implies digest_for(
        q.digests(),
        #[trigger] now[i],
    ) is Some by {
        if i < kept.len() {
            assert(now[i] == kept[i]);
            assert(digest_for(p.digests(), kept[i]) is Some);
        } else {
            assert(now[i] == p.current_id());
        }
    }
}

proof fn lemma_settle_known(p: Progress, store: Objects, around: Surroundings)
    requires
        p.fates.len() <= p.version.files.len(),
        uploaded(p, store, 0),
        digests_match(p.layout, store, p.digests()),
        all_known(p),
    ensures
        ({
            let (last, objects) = settle(p, store, around);
            &&& same_job(p, last)
            &&& uploaded(last, objects, 0)
            &&& digests_match(p.layout, objects, last.digests())
            &&& all_known(last)
        }),
    decreases p.version.files.len() - p.fates.len(),
{
    if p.fates.len() < p.version.files.len() {
        let id = p.current_id();
        let key = p.layout.file_key(id);
        if store.contains_key(key) {
            let fate = found_fate(p, store);
            lemma_uploaded_with(p, fate, store);
            lemma_one_more_known(p, fate);
            if !p.current_is_known() {
                lemma_one_more_match(p.layout, store, p.digests(), id, store[key]);
                assert(store.insert(key, store[key]) =~= store);
            }
            lemma_settle_known(p.with(fate), store, around);
        } else {
            match around.disk[p.fates.len() as int] {
                Some(bytes) => {
                    let fate = Fate::Uploaded(bytes);
                    let objects = store.insert(key, bytes);
                    lemma_uploaded_grows(p, store, objects, 0);
                    lemma_uploaded_with(p, fate, objects);
                    lemma_one_more_known(p, fate);
                    lemma_one_more_match(p.layout, store, p.digests(), id, bytes);
                    lemma_settle_known(p.with(fate), objects, around);
                },
                None => {
                    lemma_uploaded_with(p, Fate::Vanished, store);
                    lemma_one_more_known(p, Fate::Vanished);
                    lemma_settle_known(p.with(Fate::Vanished), store, around);
                },
            }
        }
    }
}

proof fn lemma_settled_known(first: Progress, store: Objects, around: Surroundings)
    requires
        begins(first),
        digests_match(first.layout, store, first.known),
    ensures
        ({
            let (last, objects) = settle(first, store, around);
            &&& same_job(first, last)
            &&& uploaded(last, objects, 0)
            &&& digests_match(first.layout, objects, last.digests())
            &&& all_known(last)
        }),
{
    assert(kept_ids(first.version.files, first.fates) =~= Seq::empty());
    assert(fresh_digests(first.version.files, first.fates) =~= Seq::empty());
    assert(first.digests() =~= first.known);
    lemma_settle_known(first, store, around);
}

/// Every file that a record names has its content hash in that record, and it is the hash of the
/// bytes that the bucket holds: of files uploaded now, of files uploaded before, by this writer or
/// another, alike.
pub proof fn law_every_file_is_checksummed(
    first: Progress,
    store: Objects,
    around: Surroundings,
    i: int,
)
    requires
        begins(first),
        digests_match(first.layout, store, first.known),
        0 <= i < settled(first, store, around).record(around.now).file_ids.len(),
    ensures
        ({
            let record = settled(first, store, around).record(around.now);
            let objects = replicated(first, store, around);
            let key = first.layout.file_key(record.file_ids[i]);
            &&& objects.contains_key(key)
            &&& digest_for(record.checksums, record.file_ids[i]) == Some(fnv1a(objects[key]))
        }),
{
    lemma_settled_known(first, store, around);
    let (last, files) = settle(first, store, around);
    let record = last.record(around.now);
    let id = record.file_ids[i];
    lemma_replicated_files(first, store, around, id);
    lemma_known_digests(last.digests(), record.file_ids, id);
    assert(files.contains_key(first.layout.file_key(id)));
    assert(digest_for(last.digests(), id) is Some);
}

/// Every journal that a record names has its content hash in that record.
pub proof fn law_every_journal_is_checksummed(
    first: Progress,
    store: Objects,
    around: Surroundings,
    i: int,
)
    requires
        journal_names_are_distinct(first),
        0 <= i < first.version.journals.len(),
    ensures
        ({
            let record = settled(first, store, around).record(around.now);
            let journal = first.version.journals[i];
            &&& record.journals[i] == journal.path
            &&& digest_for(record.journal_checksums, journal.path) == Some(fnv1a(journal.bytes))
        }),
{
    crate::round_trip_laws::lemma_settle_same_job(first, store, around);
    lemma_journal_digest(first.version.journals, i);
}

/// A file that was altered in the bucket after its version was replicated never lands: where the
/// hash of the altered bytes is another, they are not what the record says, and the restore is
/// refused. It always is another where one byte was changed.
pub proof fn law_an_altered_file_never_lands(
    first: Progress,
    store: Objects,
    around: Surroundings,
    i: int,
    altered: Seq<u8>,
)
    requires
        begins(first),
        digests_match(first.layout, store, first.known),
        0 <= i < settled(first, store, around).record(around.now).file_ids.len(),
    ensures
        ({
            let record = settled(first, store, around).record(around.now);
            let objects = replicated(first, store, around);
            let key = first.layout.file_key(record.file_ids[i]);
            let actions = restore_actions(first.layout, record);
            &&& fnv1a(altered) != fnv1a(objects[key]) ==> {
                &&& !intact(record.checksums, record.file_ids[i], altered)
                &&& carried_out(objects.insert(key, altered), record, actions) is None
            }
            &&& forall|at: int, b: u8|
                0 <= at < objects[key].len() && objects[key][at] != b && altered
                    == #[trigger] objects[key].update(at, b) ==> fnv1a(altered) != fnv1a(objects[key])
        }),
{
    let record = settled(first, store, around).record(around.now);
    let objects = replicated(first, store, around);
    let key = first.layout.file_key(record.file_ids[i]);
    law_every_file_is_checksummed(first, store, around, i);
    if fnv1a(altered) != fnv1a(objects[key]) {
        let after = objects.insert(key, altered);
        law_restore_is_exact(first.layout, after, record);
        assert(!file_is_good(first.layout, after, record, record.file_ids[i]));
    }
    assert forall|at: int, b: u8|
        0 <= at < objects[key].len() && objects[key][at] != b && altered
            == #[trigger] objects[key].update(at, b) implies fnv1a(altered) != fnv1a(objects[key]) by {
        law_one_changed_byte_is_detected(objects[key], at, b);
    }
}

/// A journal that was altered in the bucket after its version was replicated never lands: where it
/// no longer decompresses, or to bytes with another hash, the restore is refused.
pub proof fn law_an_altered_journal_never_lands(
    first: Progress,
    store: Objects,
    around: Surroundings,
    i: int,
    altered: Seq<u8>,
)
    requires
        journal_names_are_distinct(first),
        0 <= i < first.version.journals.len(),
    ensures
        ({
            let record = settled(first, store, around).record(around.now);
            let journal = first.version.journals[i];
            let key = first.layout.journal_key(first.version.seqno, journal.path);
            let after = replicated(first, store, around).insert(key, altered);
            (gunzip_stream(altered) matches Some(bytes) ==> fnv1a(bytes) != fnv1a(journal.bytes))
                ==> carried_out(after, record, restore_actions(first.layout, record)) is None
        }),
{
    let record = settled(first, store, around).record(around.now);
    let journal = first.version.journals[i];
    let key = first.layout.journal_key(first.version.seqno, journal.path);
    let after = replicated(first, store, around).insert(key, altered);
    crate::round_trip_laws::lemma_settle_same_job(first, store, around);
    law_every_journal_is_checksummed(first, store, around, i);
    law_restore_is_exact(first.layout, after, record);
    if gunzip_stream(altered) matches Some(bytes) ==> fnv1a(bytes) != fnv1a(journal.bytes) {
        assert(!journal_is_good(first.layout, after, record, record.journals[i]));
    }
}

/// The hashes that a writer knows go on to match the bucket, version after version; so do those
/// that a record holds, with which a writer that starts anew goes on.
pub proof fn law_known_hashes_go_on_to_match(first: Progress, store: Objects, around: Surroundings)
    requires
        begins(first),
        digests_match(first.layout, store, first.known),
    ensures
        ({
            let last = settled(first, store, around);
            let record = last.record(around.now);
            let objects = replicated(first, store, around);
            &&& digests_match(first.layout, objects, first.known + last.outcome(record).fresh)
            &&& digests_match(first.layout, objects, record.checksums)
        }),
{
    lemma_settled_known(first, store, around);
    let (last, files) = settle(first, store, around);
    let record = last.record(around.now);
    let objects = replicated(first, store, around);
    let layout = first.layout;
    assert forall|path: Seq<char>|
        #![trigger digest_for(last.digests(), path)]
        objects.contains_key(layout.file_key(path)) implies (digest_for(
        last.digests(),
        path,
    ) matches Some(hash) ==> hash == fnv1a(objects[layout.file_key(path)])) by {
        lemma_replicated_files(first, store, around, path);
    }
    assert forall|path: Seq<char>|
        #![trigger digest_for(record.checksums, path)]
        objects.contains_key(layout.file_key(path)) implies (digest_for(
        record.checksums,
        path,
    ) matches Some(hash) ==> hash == fnv1a(objects[layout.file_key(path)])) by {
        lemma_replicated_files(first, store, around, path);
        lemma_known_digests(last.digests(), record.file_ids, path);
        assert(digest_for(last.digests(), path) matches Some(hash) ==> objects.contains_key(
            layout.file_key(path),
        ) ==> hash == fnv1a(objects[layout.file_key(path)]));
    }
}

/// A writer that takes over from a version record goes on with hashes that match the bucket.
pub proof fn law_resuming_keeps_the_match(
    replicator: ReplicatorView,
    store: Objects,
    newest: RecordView,
)
    requires
        digests_match(replicator.layout, store, replicator.known),
        digests_match(replicator.layout, store, newest.checksums),
    ensures
        digests_match(replicator.layout, store, replicator.resumed(newest).known),
{
    let layout = replicator.layout;
    let all = replicator.resumed(newest).known;
    assert forall|path: Seq<char>|
        #![trigger digest_for(all, path)]
        store.contains_key(layout.file_key(path)) implies (digest_for(all, path) matches Some(hash) ==> hash
        == fnv1a(store[layout.file_key(path)])) by {
        lemma_digest_for_concat(replicator.known, newest.checksums, path);
        assert(digest_for(newest.checksums, path) matches Some(hash) ==> hash == fnv1a(
            store[layout.file_key(path)],
        ));
        assert(digest_for(replicator.known, path) matches Some(hash) ==> hash == fnv1a(
            store[layout.file_key(path)],
        ));
    }
}

} // verus!
