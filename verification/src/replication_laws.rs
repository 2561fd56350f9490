//! Laws of a finished replication: that it ends, and what the bucket holds then.

use vstd::prelude::*;
use crate::compress::gzip_stream;
use crate::object_store::Objects;
use crate::upload::{Fate, Progress, StepView};
use crate::upload_laws::{
    begins, carry_out, lemma_run_on_track, run, same_job, Surroundings,
};

verus! {

/// What becomes of a file that the store has.
pub open spec fn found_fate(p: Progress, store: Objects) -> Fate {
    if p.current_is_known() {
        Fate::Present
    } else {
        Fate::Fetched(store[p.layout.file_key(p.current_id())])
    }
}

/// The files settled one after the other: one that the store has is left alone, and hashed where
/// its hash is not known; one that is gone from the disk is left out; any other is uploaded.
pub open spec fn settle(p: Progress, store: Objects, around: Surroundings) -> (Progress, Objects)
    decreases p.version.files.len() - p.fates.len(),
{
    if p.fates.len() >= p.version.files.len() {
        (p, store)
    } else {
        let key = p.layout.file_key(p.current_id());
        if store.contains_key(key) {
            settle(p.with(found_fate(p, store)), store, around)
        } else {
            match around.disk[p.fates.len() as int] {
                Some(bytes) => settle(
                    p.with(Fate::Uploaded(bytes)),
                    store.insert(key, bytes),
                    around,
                ),
                None => settle(p.with(Fate::Vanished), store, around),
            }
        }
    }
}

/// The journals from index `at` on, compressed and uploaded.
pub open spec fn ship_journals(p: Progress, store: Objects, at: int) -> Objects
    decreases p.version.journals.len() - at,
{
    if at < 0 || at >= p.version.journals.len() {
        store
    } else {
        let journal = p.version.journals[at];
        ship_journals(
            p,
            store.insert(
                p.layout.journal_key(p.version.seqno, journal.path),
                gzip_stream(journal.bytes)->0,
            ),
            at + 1,
        )
    }
}

/// The progress when all files are settled.
pub open spec fn settled(first: Progress, store: Objects, around: Surroundings) -> Progress {
    settle(first, store, around).0
}

/// The bucket when everything that the version references is uploaded.
pub open spec fn shipped(first: Progress, store: Objects, around: Surroundings) -> Objects {
    let (p, objects) = settle(first, store, around);
    ship_journals(p, objects, 0)
}

/// The bucket when the version is replicated: everything that it references, then its record,
/// and the copy of that where it is a re-base point.
pub open spec fn replicated(first: Progress, store: Objects, around: Surroundings) -> Objects {
    let p = settled(first, store, around);
    let record = p.record(around.now);
    let objects = shipped(first, store, around).insert(
        p.layout.version_key(record.seqno),
        (around.encode)(record),
    );
    if record.is_snapshot {
        objects.insert(p.layout.snapshot_key(record.seqno), (around.encode)(record))
    } else {
        objects
    }
}

/// All journals of the version can be compressed.
pub open spec fn journals_compress(p: Progress) -> bool {
    forall|j: int|
        0 <= j < p.version.journals.len() ==> gzip_stream(
            (#[trigger] p.version.journals[j]).bytes,
        ) is Some
}

/// Where a replication stands, and where it leads.
spec fn leads_on(
    first: Progress,
    store: Objects,
    step: StepView,
    objects: Objects,
    around: Surroundings,
) -> bool {
    let (last, files) = settle(first, store, around);
    match step {
        StepView::Probe(p) => settle(p, objects, around) == (last, files),
        StepView::Fetch(p) => {
            &&& settle(p, objects, around) == (last, files)
            &&& objects.contains_key(p.layout.file_key(p.current_id()))
            &&& !p.current_is_known()
        },
        StepView::Read(p) => settle(p, objects, around) == (last, files) && !objects.contains_key(
            p.layout.file_key(p.current_id()),
        ),
        StepView::PutFile(p, bytes) => settle(p, objects, around) == (last, files)
            && !objects.contains_key(p.layout.file_key(p.current_id())),
        StepView::PutJournal(p, at, object) => p == last && ship_journals(p, objects, at)
            == shipped(first, store, around),
        StepView::Clock(p) => p == last && objects == shipped(first, store, around),
        StepView::PutRecord(p, record) => p == last && objects == shipped(first, store, around),
        StepView::PutSnapshot(p, record) => p == last && record.is_snapshot && objects == shipped(
            first,
            store,
            around,
        ).insert(p.layout.version_key(record.seqno), (around.encode)(record)),
        StepView::Done(outcome) => outcome == last.outcome(last.record(around.now)) && objects
            == replicated(first, store, around),
        StepView::Failed => !journals_compress(first),
    }
}

proof fn lemma_after_journals_leads_on(
    first: Progress,
    store: Objects,
    p: Progress,
    at: int,
    objects: Objects,
    around: Surroundings,
)
    requires
        p == settled(first, store, around),
        same_job(first, p),
        0 <= at <= p.version.journals.len(),
        ship_journals(p, objects, at) == shipped(first, store, around),
    ensures
        leads_on(first, store, p.after_journals(at), objects, around),
{
    if at < p.version.journals.len() && gzip_stream(p.version.journals[at].bytes) is None {
        assert(gzip_stream(first.version.journals[at].bytes) is None);
    }
}

proof fn lemma_after_files_leads_on(
    first: Progress,
    store: Objects,
    p: Progress,
    objects: Objects,
    around: Surroundings,
)
    requires
        same_job(first, p),
        p.fates.len() <= p.version.files.len(),
        settle(p, objects, around) == settle(first, store, around),
    ensures
        leads_on(first, store, p.after_files(), objects, around),
{
    if p.fates.len() == p.version.files.len() {
        lemma_after_journals_leads_on(first, store, p, 0, objects, around);
    }
}

proof fn lemma_run_leads_on(first: Progress, store: Objects, around: Surroundings, n: nat)
    requires
        begins(first),
    ensures
        ({
            let (step, objects) = run(first.after_files(), store, around, n);
            leads_on(first, store, step, objects, around)
        }),
    decreases n,
{
    if n == 0 {
        lemma_after_files_leads_on(first, store, first, store, around);
    } else {
        let (step, objects) = run(first.after_files(), store, around, (n - 1) as nat);
        lemma_run_on_track(first, store, around, (n - 1) as nat);
        lemma_run_leads_on(first, store, around, (n - 1) as nat);
        let (next, after) = carry_out(step, objects, around);
        match step {
            StepView::Probe(p) => {
                if objects.contains_key(p.layout.file_key(p.current_id())) && p.current_is_known() {
                    lemma_after_files_leads_on(first, store, p.with(Fate::Present), after, around);
                }
            },
            StepView::Fetch(p) => {
                let fate = Fate::Fetched(objects[p.layout.file_key(p.current_id())]);
                lemma_after_files_leads_on(first, store, p.with(fate), after, around);
            },
            StepView::Read(p) => {
                if around.disk[p.fates.len() as int] is None {
                    lemma_after_files_leads_on(first, store, p.with(Fate::Vanished), after, around);
                }
            },
            StepView::PutFile(p, bytes) => {
                lemma_after_files_leads_on(
                    first,
                    store,
                    p.with(Fate::Uploaded(bytes)),
                    after,
                    around,
                );
            },
            StepView::PutJournal(p, at, object) => {
                lemma_after_journals_leads_on(first, store, p, at + 1, after, around);
            },
            _ => {},
        }
    }
}

/// A replication that is done has settled every file, shipped every journal, and written the
/// record of exactly that; it fails only where a journal cannot be compressed.
pub proof fn law_replication_does_what_it_says(
    first: Progress,
    store: Objects,
    around: Surroundings,
    n: nat,
)
    requires
        begins(first),
    ensures
        ({
            let (step, objects) = run(first.after_files(), store, around, n);
            let last = settled(first, store, around);
            &&& step matches StepView::Done(outcome) ==> outcome == last.outcome(
                last.record(around.now),
            ) && objects == replicated(first, store, around)
            &&& step is Failed ==> !journals_compress(first)
        }),
{
    lemma_run_leads_on(first, store, around, n);
}

/// How many more steps a replication takes at most.
pub open spec fn steps_left(step: StepView) -> int {
    match step {
        StepView::Probe(p) => 3 * (p.version.files.len() - p.fates.len()) + p.version.journals.len()
            + 3,
        StepView::Fetch(p) => 3 * (p.version.files.len() - p.fates.len()) + p.version.journals.len()
            + 2,
        StepView::Read(p) => 3 * (p.version.files.len() - p.fates.len()) + p.version.journals.len()
            + 2,
        StepView::PutFile(p, _) => 3 * (p.version.files.len() - p.fates.len())
            + p.version.journals.len() + 1,
        StepView::PutJournal(p, at, _) => p.version.journals.len() - at + 3,
        StepView::Clock(_) => 3,
        StepView::PutRecord(_, _) => 2,
        StepView::PutSnapshot(_, _) => 1,
        StepView::Done(_) => 0,
        StepView::Failed => 0,
    }
}

/// Every replication ends: after three steps per file, one per journal and three more, it is done
/// or has failed.
pub proof fn law_replication_ends(first: Progress, store: Objects, around: Surroundings, n: nat)
    requires
        begins(first),
        n >= 3 * first.version.files.len() + first.version.journals.len() + 3,
    ensures
        ({
            let step = run(first.after_files(), store, around, n).0;
            step is Done || step is Failed
        }),
{
    lemma_steps_left(first, store, around, n);
    lemma_run_on_track(first, store, around, n);
}

proof fn lemma_steps_left(first: Progress, store: Objects, around: Surroundings, n: nat)
    requires
        begins(first),
    ensures
        ({
            let left = steps_left(run(first.after_files(), store, around, n).0);
            left <= 0 || left <= 3 * first.version.files.len() + first.version.journals.len() + 3 - n
        }),
    decreases n,
{
    if n > 0 {
        lemma_steps_left(first, store, around, (n - 1) as nat);
        lemma_run_on_track(first, store, around, (n - 1) as nat);
    }
}

/// A version whose journals can be compressed is always replicated to the end.
pub proof fn law_replication_succeeds(first: Progress, store: Objects, around: Surroundings, n: nat)
    requires
        begins(first),
        n >= 3 * first.version.files.len() + first.version.journals.len() + 3,
    ensures
        journals_compress(first) ==> run(first.after_files(), store, around, n).0 is Done && run(
            first.after_files(),
            store,
            around,
            n,
        ).1 == replicated(first, store, around),
{
    law_replication_ends(first, store, around, n);
    lemma_run_leads_on(first, store, around, n);
}

} // verus!
