//! The law of a whole history: of many versions, replicated one after the other, each restores to
//! what it was.

use vstd::prelude::*;
use crate::history::{lossless, recorded, Decode};
use crate::layout::Layout;
use crate::object_store::Objects;
use crate::replication_laws::{law_replication_succeeds, replicated, settled};
use crate::restore::{lock_file, restore_actions};
use crate::restore_laws::carried_out;
use crate::round_trip_laws::{
    digests_are_true, disk_is_true, journal_names_are_distinct, journals_round_trip,
    law_earlier_versions_stay, law_restore_gives_back_what_was_replicated, law_truth_is_kept,
    store_is_true, true_files, Truth,
};
use crate::types::{Content, RecordView};
use crate::upload::Progress;
use crate::upload_laws::{begins, Surroundings};

verus! {

/// The replication of one version: where it begins, and what it meets.
pub struct Replication {
    pub first: Progress,
    pub around: Surroundings,
}

/// The bucket after these replications, one after the other.
pub open spec fn bucket_after(store: Objects, history: Seq<Replication>) -> Objects
    decreases history.len(),
{
    if history.len() == 0 {
        store
    } else {
        let before = bucket_after(store, history.drop_last());
        replicated(history.last().first, before, history.last().around)
    }
}

/// The record that the replication with this index writes.
pub open spec fn record_of(store: Objects, history: Seq<Replication>, k: int) -> RecordView {
    let before = bucket_after(store, history.take(k));
    settled(history[k].first, before, history[k].around).record(history[k].around.now)
}

/// The files of the version that the replication with this index captured.
pub open spec fn version_files(
    store: Objects,
    history: Seq<Replication>,
    k: int,
    truth: Truth,
) -> Seq<Content> {
    let version = history[k].first.version;
    (true_files(truth, record_of(store, history, k).file_ids) + version.journals
        + version.pointers).push(lock_file())
}

/// A history of one generation: versions with different sequence numbers, of files that are
/// immutable.
pub open spec fn is_history(
    layout: Layout,
    store: Objects,
    history: Seq<Replication>,
    decode: Decode,
    truth: Truth,
) -> bool {
    &&& store_is_true(layout, store, truth)
    &&& forall|k: int|
        0 <= k < history.len() ==> {
            let first = (#[trigger] history[k]).first;
            &&& begins(first)
            &&& first.layout == layout
            &&& disk_is_true(first, history[k].around, truth)
            &&& digests_are_true(first.known, truth)
            &&& journal_names_are_distinct(first)
            &&& lossless(history[k].around.encode, decode)
        }
    &&& forall|i: int, j: int|
        0 <= i < j < history.len() ==> (#[trigger] history[i]).first.version.seqno != (
        #[trigger] history[j]).first.version.seqno
}

/// Each journal of each version can be compressed, and decompresses to itself.
pub open spec fn all_journals_round_trip(history: Seq<Replication>) -> bool {
    forall|k: int| 0 <= k < history.len() ==> journals_round_trip((#[trigger] history[k]).first)
}

proof fn lemma_shorter_history(
    layout: Layout,
    store: Objects,
    history: Seq<Replication>,
    decode: Decode,
    truth: Truth,
)
    requires
        history.len() > 0,
        is_history(layout, store, history, decode, truth),
    ensures
        is_history(layout, store, history.drop_last(), decode, truth),
        all_journals_round_trip(history) ==> all_journals_round_trip(history.drop_last()),
{
    let before = history.drop_last();
    assert(forall|k: int| 0 <= k < before.len() ==> #[trigger] before[k] == history[k]);
}

proof fn lemma_bucket_is_true(
    layout: Layout,
    store: Objects,
    history: Seq<Replication>,
    decode: Decode,
    truth: Truth,
)
    requires
        is_history(layout, store, history, decode, truth),
    ensures
        store_is_true(layout, bucket_after(store, history), truth),
    decreases history.len(),
{
    if history.len() > 0 {
        lemma_shorter_history(layout, store, history, decode, truth);
        lemma_bucket_is_true(layout, store, history.drop_last(), decode, truth);
        let last = history[history.len() - 1];
        law_truth_is_kept(
            last.first,
            bucket_after(store, history.drop_last()),
            last.around,
            truth,
        );
    }
}

/// Every version of a history restores to what it was: whatever was replicated before and after
/// it, its record is in the bucket under its sequence number, and restoring it lands exactly its
/// files, its journals, its pointer files and an empty lock.
pub proof fn law_every_version_of_a_history_restores(
    layout: Layout,
    store: Objects,
    history: Seq<Replication>,
    decode: Decode,
    truth: Truth,
    k: int,
)
    requires
        is_history(layout, store, history, decode, truth),
        0 <= k < history.len(),
    ensures
        all_journals_round_trip(history) ==> {
            let bucket = bucket_after(store, history);
            let record = record_of(store, history, k);
            &&& record.seqno == history[k].first.version.seqno
            &&& recorded(layout, bucket, decode, record.seqno) == Some(record)
            &&& carried_out(bucket, record, restore_actions(layout, record)) == Some(
                version_files(store, history, k, truth),
            )
        },
    decreases history.len(),
{
    if all_journals_round_trip(history) {
        let head = history.drop_last();
        let before = bucket_after(store, head);
        let last = history[history.len() - 1];
        let record = record_of(store, history, k);
        lemma_shorter_history(layout, store, history, decode, truth);
        lemma_bucket_is_true(layout, store, head, decode, truth);
        assert(journals_round_trip(last.first));
        if k == history.len() - 1 {
            assert(history.take(k) =~= head);
            crate::round_trip_laws::lemma_settle_same_job(last.first, before, last.around);
            law_restore_gives_back_what_was_replicated(
                last.first,
                before,
                last.around,
                decode,
                truth,
            );
        } else {
            assert(head.take(k) =~= history.take(k));
            assert(head[k] == history[k]);
            law_every_version_of_a_history_restores(layout, store, head, decode, truth, k);
            assert(record.seqno != last.first.version.seqno);
            let n = (3 * last.first.version.files.len() + last.first.version.journals.len()
                + 3) as nat;
            law_replication_succeeds(last.first, before, last.around, n);
            law_earlier_versions_stay(last.first, before, last.around, decode, n, record);
        }
    }
}

} // verus!
