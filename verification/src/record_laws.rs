//! Laws of the version record: what a replicated version says of itself in the bucket, field by field,
//! and what the replication leaves alone.

use vstd::prelude::*;
use vstd::string::*;
use crate::checksum::{digest_for, fnv1a, lemma_digest_for_concat};
use crate::history::{lossless, Decode};
use crate::integrity_laws::{digests_match, law_every_file_is_checksummed};
use crate::layout::Layout;
use crate::layout_laws::law_keys_are_distinct;
use crate::lists::lemma_push_contains;
use crate::object_store::Objects;
use crate::replication_laws::{
    found_fate, journals_compress, law_replication_does_what_it_says, law_replication_succeeds,
    replicated, settle, settled,
};
use crate::replicator::{ReplicatorView, VersionView};
use crate::restore::restore_actions;
use crate::restore_laws::carried_out;
use crate::round_trip_laws::{
    digests_are_true, disk_is_true, journal_names_are_distinct, journals_round_trip,
    law_no_file_is_left_out, law_restore_gives_back_what_was_replicated, lemma_known_digests,
    lemma_settle_same_job, lemma_ship_keeps, store_is_true, true_files, Truth,
};
use crate::types::{Content, Digest, RecordView};
use crate::upload::{
    fresh_digests, kept_ids, known_digests, Fate, OutcomeView, Progress, StepView,
};
use crate::upload_laws::{begins, lemma_run_on_track, run, Surroundings};

verus! {

/// One of the version's files with this id is in the store or on the disk.
pub open spec fn is_at_hand(
    layout: Layout,
    version: VersionView,
    store: Objects,
    around: Surroundings,
    id: Seq<char>,
) -> bool {
    exists|i: int|
        0 <= i < version.files.len() && #[trigger] version.files[i] == id && (store.contains_key(
            layout.file_key(id),
        ) || around.disk[i] is Some)
}

/// The record says of the version what was captured of it.
pub open spec fn speaks_of(record: RecordView, version: VersionView) -> bool {
    &&& record.seqno == version.seqno
    &&& record.parent == version.parent
    &&& record.dirs == version.dirs
    &&& record.pointers == version.pointers
    &&& record.journals.len() == version.journals.len()
    &&& forall|i: int|
        0 <= i < version.journals.len() ==> #[trigger] record.journals[i] == version.journals[i].path
    &&& record.journal_checksums.len() == version.journals.len()
    &&& forall|i: int|
        0 <= i < version.journals.len() ==> #[trigger] record.journal_checksums[i] == (Digest {
            path: version.journals[i].path,
            hash: fnv1a(version.journals[i].bytes),
        })
}

/// Which files are kept: those settled that did not vanish.
proof fn lemma_kept(p: Progress, store: Objects, around: Surroundings, id: Seq<char>)
    requires
        p.fates.len() <= p.version.files.len(),
        kept_ids(p.version.files, p.fates).contains(id) ==> store.contains_key(
            p.layout.file_key(id),
        ),
    ensures
        ({
            let last = settled(p, store, around);
            let n = p.fates.len() as int;
            &&& last.fates.len() == p.version.files.len()
            &&& kept_ids(last.version.files, last.fates).contains(id) <==> {
                ||| kept_ids(p.version.files, p.fates).contains(id)
                ||| exists|i: int|
                    n <= i < p.version.files.len() && #[trigger] p.version.files[i] == id && (
                    store.contains_key(p.layout.file_key(id)) || around.disk[i] is Some)
            }
        }),
    decreases p.version.files.len() - p.fates.len(),
{
    let n = p.fates.len() as int;
    if n < p.version.files.len() {
        let current = p.current_id();
        let key = p.layout.file_key(current);
        law_keys_are_distinct(p.layout, id, current, 0, 0, id, id);
        let (fate, objects) = if store.contains_key(key) {
            (found_fate(p, store), store)
        } else {
            match around.disk[n] {
                Some(bytes) => (Fate::Uploaded(bytes), store.insert(key, bytes)),
                None => (Fate::Vanished, store),
            }
        };
        let q = p.with(fate);
        assert(q.fates.drop_last() =~= p.fates);
        lemma_push_contains(kept_ids(p.version.files, p.fates), current, id);
        lemma_kept(q, objects, around, id);
        let later = |store: Objects, from: int| exists|i: int|
            from <= i < p.version.files.len() && #[trigger] p.version.files[i] == id && (
            store.contains_key(p.layout.file_key(id)) || around.disk[i] is Some);
        if later(store, n) {
            let i = choose|i: int|
                n <= i < p.version.files.len() && #[trigger] p.version.files[i] == id && (
                store.contains_key(p.layout.file_key(id)) || around.disk[i] is Some);
            if i > n {
                assert(p.version.files[i] == id);
                assert(later(objects, n + 1));
            }
        }
        if later(objects, n + 1) {
            let i = choose|i: int|
                n + 1 <= i < p.version.files.len() && #[trigger] p.version.files[i] == id && (
                objects.contains_key(p.layout.file_key(id)) || around.disk[i] is Some);
            assert(p.version.files[i] == id);
            if !(store.contains_key(p.layout.file_key(id)) || around.disk[i] is Some) {
                assert(id == current);
            }
        }
        assert(p.version.files[n] == current);
    }
}

/// Settling files writes nothing but files.
proof fn lemma_settle_keeps(p: Progress, store: Objects, around: Surroundings, key: Seq<char>)
    requires
        forall|i: int|
            0 <= i < p.version.files.len() ==> p.layout.file_key(#[trigger] p.version.files[i])
                != key,
    ensures
        settle(p, store, around).1.contains_key(key) == store.contains_key(key),
        settle(p, store, around).1[key] == store[key],
    decreases p.version.files.len() - p.fates.len(),
{
    if p.fates.len() < p.version.files.len() {
        let current = p.current_id();
        assert(p.version.files[p.fates.len() as int] == current);
        let file = p.layout.file_key(current);
        if store.contains_key(file) {
            lemma_settle_keeps(p.with(found_fate(p, store)), store, around, key);
        } else {
            match around.disk[p.fates.len() as int] {
                Some(bytes) => {
                    lemma_settle_keeps(
                        p.with(Fate::Uploaded(bytes)),
                        store.insert(file, bytes),
                        around,
                        key,
                    );
                },
                None => {
                    lemma_settle_keeps(p.with(Fate::Vanished), store, around, key);
                },
            }
        }
    }
}

/// When the replication of a version is done, its record is in the bucket under its sequence number
/// and says what was captured: the sequence number, the parent, every directory, every pointer with
/// its bytes, every journal by name and hash. It names exactly those of the version's files that the
/// bucket had or the disk still held; the others are counted. It is a re-base point if so many
/// versions went by since the last one, and then a copy of it lies beside it.
pub proof fn law_the_record_says_what_was_captured(
    replicator: ReplicatorView,
    version: VersionView,
    store: Objects,
    around: Surroundings,
    decode: Decode,
    n: nat,
    id: Seq<char>,
)
    requires
        lossless(around.encode, decode),
    ensures
        ({
            let layout = replicator.layout;
            let (step, objects) = run(
                replicator.begun(version).after_files(),
                store,
                around,
                n,
            );
            let key = layout.version_key(version.seqno);
            let copy = layout.snapshot_key(version.seqno);
            step matches StepView::Done(outcome) ==> objects.contains_key(key) && (decode(
                objects[key],
            ) matches Some(record) && {
                &&& speaks_of(record, version)
                &&& record.file_ids.contains(id) <==> is_at_hand(layout, version, store, around, id)
                &&& record.is_snapshot == (match replicator.cfg.snapshot_every {
                    Some(every) => replicator.versions_since_snapshot + 1 >= every,
                    None => false,
                })
                &&& if record.is_snapshot {
                    objects.contains_key(copy) && objects[copy] == objects[key]
                } else {
                    objects.contains_key(copy) == store.contains_key(copy) && objects[copy]
                        == store[copy]
                }
                &&& outcome.seqno == version.seqno
                &&& outcome.is_snapshot == record.is_snapshot
                &&& outcome.ts_millis == record.ts_millis
                &&& outcome.dropped == version.files.len() - record.file_ids.len()
            })
        }),
{
    let layout = replicator.layout;
    let first = replicator.begun(version);
    let (step, objects) = run(first.after_files(), store, around, n);
    if step is Done {
        law_replication_does_what_it_says(first, store, around, n);
        lemma_settle_same_job(first, store, around);
        let last = settled(first, store, around);
        let files = settle(first, store, around).1;
        let record = last.record(around.now);
        let key = layout.version_key(version.seqno);
        let copy = layout.snapshot_key(version.seqno);
        assert(decode((around.encode)(record)) == Some(record));
        law_keys_are_distinct(layout, id, id, version.seqno, version.seqno, id, id);
        assert(kept_ids(first.version.files, first.fates) =~= Seq::empty());
        lemma_kept(first, store, around, id);
        assert forall|i: int| 0 <= i < version.files.len() implies layout.file_key(
            #[trigger] version.files[i],
        ) != copy by {
            law_keys_are_distinct(
                layout,
                version.files[i],
                id,
                version.seqno,
                version.seqno,
                id,
                id,
            );
        }
        lemma_settle_keeps(first, store, around, copy);
        assert forall|j: int| 0 <= j < last.version.journals.len() implies layout.journal_key(
            version.seqno,
            (#[trigger] last.version.journals[j]).path,
        ) != copy by {
            let name = last.version.journals[j].path;
            law_keys_are_distinct(layout, id, id, version.seqno, version.seqno, name, name);
        }
        lemma_ship_keeps(last, files, 0, copy);
    }
}

/// The replication of a version touches nothing but its own files, its own journals, its record and
/// the copy of that: whatever else the bucket holds, of this database or another, stays.
pub proof fn law_nothing_else_is_touched(
    first: Progress,
    store: Objects,
    around: Surroundings,
    n: nat,
    key: Seq<char>,
)
    requires
        begins(first),
        forall|i: int|
            0 <= i < first.version.files.len() ==> key != first.layout.file_key(
                #[trigger] first.version.files[i],
            ),
        forall|j: int|
            0 <= j < first.version.journals.len() ==> key != first.layout.journal_key(
                first.version.seqno,
                (#[trigger] first.version.journals[j]).path,
            ),
        key != first.layout.version_key(first.version.seqno),
        key != first.layout.snapshot_key(first.version.seqno),
    ensures
        ({
            let objects = run(first.after_files(), store, around, n).1;
            objects.contains_key(key) == store.contains_key(key) && objects[key] == store[key]
        }),
    decreases n,
{
    if n > 0 {
        let (step, objects) = run(first.after_files(), store, around, (n - 1) as nat);
        lemma_run_on_track(first, store, around, (n - 1) as nat);
        law_nothing_else_is_touched(first, store, around, (n - 1) as nat, key);
        match step {
            StepView::PutFile(p, bytes) => {
                assert(key != first.layout.file_key(
                    first.version.files[p.fates.len() as int],
                ));
            },
            StepView::PutJournal(p, at, object) => {
                assert(key != first.layout.journal_key(
                    first.version.seqno,
                    first.version.journals[at].path,
                ));
            },
            _ => {},
        }
    }
}

/// No work is done twice: a file is fetched from the bucket only where its hash is not known, and read
/// from the disk only where the bucket does not have it.
pub proof fn law_known_files_cost_nothing(
    first: Progress,
    store: Objects,
    around: Surroundings,
    n: nat,
)
    requires
        begins(first),
    ensures
        ({
            let (step, objects) = run(first.after_files(), store, around, n);
            &&& step matches StepView::Fetch(p) ==> digest_for(first.known, p.current_id()) is None
            &&& step matches StepView::Read(p) ==> !objects.contains_key(
                first.layout.file_key(p.current_id()),
            )
            &&& step matches StepView::PutFile(p, _) ==> !objects.contains_key(
                first.layout.file_key(p.current_id()),
            )
        }),
    decreases n,
{
    lemma_run_on_track(first, store, around, n);
    if n > 0 {
        let (step, objects) = run(first.after_files(), store, around, (n - 1) as nat);
        lemma_run_on_track(first, store, around, (n - 1) as nat);
        law_known_files_cost_nothing(first, store, around, (n - 1) as nat);
        if let StepView::Probe(p) = step {
            lemma_digest_for_concat(
                p.known,
                fresh_digests(p.version.files, p.fates),
                p.current_id(),
            );
        }
    }
}

/// Where each path is listed, the known hashes are one per path, in the order of the paths.
proof fn lemma_one_digest_each(list: Seq<Digest>, paths: Seq<Seq<char>>)
    requires
        forall|i: int| 0 <= i < paths.len() ==> digest_for(list, #[trigger] paths[i]) is Some,
    ensures
        known_digests(list, paths).len() == paths.len(),
        forall|i: int|
            0 <= i < paths.len() ==> #[trigger] known_digests(list, paths)[i] == (Digest {
                path: paths[i],
                hash: digest_for(list, paths[i])->0,
            }),
    decreases paths.len(),
{
    if paths.len() > 0 {
        let rest = paths.drop_last();
        assert forall|i: int| 0 <= i < rest.len() implies digest_for(
            list,
            #[trigger] rest[i],
        ) is Some by {
            assert(rest[i] == paths[i]);
        }
        lemma_one_digest_each(list, rest);
        assert(paths.last() == paths[paths.len() - 1]);
        assert(digest_for(list, paths.last()) is Some);
        assert forall|i: int| 0 <= i < paths.len() implies #[trigger] known_digests(list, paths)[i]
            == (Digest { path: paths[i], hash: digest_for(list, paths[i])->0 }) by {
            if i < rest.len() {
                assert(known_digests(list, paths)[i] == known_digests(list, rest)[i]);
                assert(rest[i] == paths[i]);
            }
        }
    }
}

/// A record lists one content hash for each file that it names, in the same order, and no other: the
/// hash of the bytes that the bucket holds.
pub proof fn law_a_record_lists_one_hash_per_file(
    first: Progress,
    store: Objects,
    around: Surroundings,
)
    requires
        begins(first),
        digests_match(first.layout, store, first.known),
    ensures
        ({
            let record = settled(first, store, around).record(around.now);
            let objects = replicated(first, store, around);
            &&& record.checksums.len() == record.file_ids.len()
            &&& forall|i: int|
                0 <= i < record.file_ids.len() ==> (#[trigger] record.checksums[i]).path
                    == record.file_ids[i] && record.checksums[i].hash == fnv1a(
                    objects[first.layout.file_key(record.file_ids[i])],
                )
        }),
{
    let last = settled(first, store, around);
    let record = last.record(around.now);
    assert forall|i: int| 0 <= i < record.file_ids.len() implies digest_for(
        last.digests(),
        #[trigger] record.file_ids[i],
    ) is Some && digest_for(last.digests(), record.file_ids[i]) == Some(
        fnv1a(replicated(first, store, around)[first.layout.file_key(record.file_ids[i])]),
    ) by {
        law_every_file_is_checksummed(first, store, around, i);
        lemma_known_digests(last.digests(), record.file_ids, record.file_ids[i]);
        assert(record.file_ids.contains(record.file_ids[i]));
    }
    lemma_one_digest_each(last.digests(), record.file_ids);
}

/// A version is recorded at the first moment that is not before the clock and is after the version
/// before; at the end of time the moments are used up.
pub proof fn law_the_time_is_the_first_that_will_do(p: Progress, now: u64, moment: u64)
    ensures
        ({
            let recorded = p.record(now).ts_millis;
            let will_do = |t: u64| t >= now && (p.last_ts matches Some(before) ==> t > before);
            if p.last_ts == Some(u64::MAX) {
                recorded == u64::MAX
            } else {
                will_do(recorded) && (will_do(moment) ==> recorded <= moment)
            }
        }),
{
}

/// Recorded times advance from version to version, also where a writer takes over from another; what
/// was counted stays counted.
pub proof fn law_a_writer_goes_on_where_it_was(
    replicator: ReplicatorView,
    version: VersionView,
    outcome: OutcomeView,
    newest: RecordView,
    now: u64,
)
    requires
        0 <= outcome.dropped,
    ensures
        ({
            let after = replicator.finished(outcome);
            let resumed = replicator.resumed(newest);
            &&& outcome.ts_millis < u64::MAX ==> after.begun(version).record(now).ts_millis
                > outcome.ts_millis
            &&& newest.ts_millis < u64::MAX ==> resumed.begun(version).record(now).ts_millis
                > newest.ts_millis
            &&& replicator.last_ts matches Some(before) ==> before < u64::MAX ==> resumed.begun(
                version,
            ).record(now).ts_millis > before
            &&& after.layout == replicator.layout && resumed.layout == replicator.layout
            &&& after.cfg == replicator.cfg && resumed.cfg == replicator.cfg
            &&& resumed.versions_since_snapshot == replicator.versions_since_snapshot
            &&& resumed.files_dropped == replicator.files_dropped
            &&& replicator.files_dropped + outcome.dropped <= u64::MAX ==> after.files_dropped
                == replicator.files_dropped + outcome.dropped
            &&& outcome.is_snapshot ==> after.versions_since_snapshot == 0
            &&& !outcome.is_snapshot && replicator.versions_since_snapshot < u64::MAX
                ==> after.versions_since_snapshot == replicator.versions_since_snapshot + 1
        }),
{
}

/// What a writer knows of a file is what it last learned: from the version that it replicated, or from
/// the record that it took over from; else what it knew before.
pub proof fn law_a_writer_knows_what_it_last_learned(
    replicator: ReplicatorView,
    outcome: OutcomeView,
    newest: RecordView,
    path: Seq<char>,
)
    ensures
        digest_for(replicator.finished(outcome).known, path) == (match digest_for(
            outcome.fresh,
            path,
        ) {
            Some(hash) => Some(hash),
            None => digest_for(replicator.known, path),
        }),
        digest_for(replicator.resumed(newest).known, path) == (match digest_for(
            newest.checksums,
            path,
        ) {
            Some(hash) => Some(hash),
            None => digest_for(replicator.known, path),
        }),
{
    lemma_digest_for_concat(replicator.known, outcome.fresh, path);
    lemma_digest_for_concat(replicator.known, newest.checksums, path);
}

/// The whole way: a captured version whose files are all at hand is replicated to the end, and
/// restoring it lands exactly what was captured: each of its files with the bytes that belong to its
/// id, each journal and each pointer as it was, and an empty file named `lock`.
pub proof fn law_a_captured_version_comes_back(
    replicator: ReplicatorView,
    version: VersionView,
    store: Objects,
    around: Surroundings,
    decode: Decode,
    truth: Truth,
    n: nat,
)
    requires
        ({
            let first = replicator.begun(version);
            &&& store_is_true(replicator.layout, store, truth)
            &&& disk_is_true(first, around, truth)
            &&& digests_are_true(replicator.known, truth)
            &&& journal_names_are_distinct(first)
        }),
        lossless(around.encode, decode),
        n >= 3 * version.files.len() + version.journals.len() + 3,
        forall|i: int|
            0 <= i < version.files.len() ==> store.contains_key(
                replicator.layout.file_key(version.files[i]),
            ) || (#[trigger] around.disk[i]) is Some,
    ensures
        ({
            let first = replicator.begun(version);
            let layout = replicator.layout;
            let (step, objects) = run(first.after_files(), store, around, n);
            let key = layout.version_key(version.seqno);
            journals_round_trip(first) ==> {
                &&& step is Done
                &&& objects.contains_key(key)
                &&& decode(objects[key]) matches Some(record) && {
                    &&& record.file_ids == version.files
                    &&& carried_out(objects, record, restore_actions(layout, record)) == Some(
                        Seq::new(
                            version.files.len(),
                            |i: int|
                                Content { path: version.files[i], bytes: truth(version.files[i]) },
                        ) + version.journals + version.pointers + seq![
                            Content { path: "lock"@, bytes: Seq::empty() },
                        ],
                    )
                }
            }
        }),
{
    let first = replicator.begun(version);
    let layout = replicator.layout;
    if journals_round_trip(first) {
        assert(journals_compress(first));
        law_replication_succeeds(first, store, around, n);
        law_restore_gives_back_what_was_replicated(first, store, around, decode, truth);
        law_no_file_is_left_out(first, store, around);
        let record = settled(first, store, around).record(around.now);
        let landed = true_files(truth, record.file_ids) + version.journals
            + version.pointers;
        let lock = Content { path: "lock"@, bytes: Seq::empty() };
        assert(landed.push(lock) =~= landed + seq![lock]);
        assert(true_files(truth, record.file_ids) =~= Seq::new(
            version.files.len(),
            |i: int| Content { path: version.files[i], bytes: truth(version.files[i]) },
        ));
    }
}

/// A writer remembers the hash of every file of the versions that it replicated: of each that the
/// record names, it knows afterwards what the record says.
pub proof fn law_a_writer_remembers_every_hash(
    replicator: ReplicatorView,
    version: VersionView,
    store: Objects,
    around: Surroundings,
    i: int,
)
    requires
        digests_match(replicator.layout, store, replicator.known),
        0 <= i < settled(replicator.begun(version), store, around).record(around.now).file_ids.len(),
    ensures
        ({
            let last = settled(replicator.begun(version), store, around);
            let record = last.record(around.now);
            let after = replicator.finished(last.outcome(record));
            &&& digest_for(after.known, record.file_ids[i]) is Some
            &&& digest_for(after.known, record.file_ids[i]) == digest_for(
                record.checksums,
                record.file_ids[i],
            )
        }),
{
    let first = replicator.begun(version);
    let last = settled(first, store, around);
    let record = last.record(around.now);
    lemma_settle_same_job(first, store, around);
    law_every_file_is_checksummed(first, store, around, i);
    lemma_known_digests(last.digests(), record.file_ids, record.file_ids[i]);
    assert(record.file_ids.contains(record.file_ids[i]));
    assert(replicator.finished(last.outcome(record)).known =~= last.digests());
}

/// The second list is some of the first, in the same order: its entries stand in the first at these
/// places.
pub open spec fn picks(from: Seq<Seq<char>>, places: Seq<int>, picked: Seq<Seq<char>>) -> bool {
    &&& places.len() == picked.len()
    &&& forall|i: int, j: int| 0 <= i < j < places.len() ==> #[trigger] places[i] < #[trigger] places[j]
    &&& forall|i: int|
        0 <= i < places.len() ==> 0 <= #[trigger] places[i] < from.len() && from[places[i]]
            == picked[i]
}

proof fn lemma_kept_in_order(files: Seq<Seq<char>>, fates: Seq<Fate>) -> (places: Seq<int>)
    requires
        fates.len() <= files.len(),
    ensures
        picks(files, places, kept_ids(files, fates)),
        forall|i: int| 0 <= i < places.len() ==> #[trigger] places[i] < fates.len(),
    decreases fates.len(),
{
    if fates.len() == 0 {
        Seq::empty()
    } else {
        let before = lemma_kept_in_order(files, fates.drop_last());
        if fates.last() is Vanished {
            before
        } else {
            before.push(fates.len() - 1)
        }
    }
}

/// A record names files in the order in which they were captured, each as often at most.
pub proof fn law_a_record_keeps_the_order_of_its_files(
    first: Progress,
    store: Objects,
    around: Surroundings,
)
    requires
        begins(first),
    ensures
        exists|places: Seq<int>| #[trigger]
            picks(
                first.version.files,
                places,
                settled(first, store, around).record(around.now).file_ids,
            ),
{
    assert(kept_ids(first.version.files, first.fates) =~= Seq::empty());
    lemma_kept(first, store, around, Seq::empty());
    lemma_settle_same_job(first, store, around);
    let last = settled(first, store, around);
    let places = lemma_kept_in_order(last.version.files, last.fates);
    assert(picks(first.version.files, places, last.record(around.now).file_ids));
}

} // verus!
