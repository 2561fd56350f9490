//! Laws of replication: what holds of the bucket at every moment while a version is replicated,
//! wherever it stops, and what holds when it is done.

use vstd::prelude::*;
use crate::compress::gzip_stream;
use crate::history::{complete, lossless, sound, sound_at, Decode, Encode};
use crate::layout_laws::law_keys_are_distinct;
use crate::object_store::Objects;
use crate::upload::{kept_ids, Fate, Progress, StepView};

verus! {

/// What answers the steps: the local files of the version (`None`: gone), the clock, and the way
/// in which records are written.
pub struct Surroundings {
    pub disk: Seq<Option<Seq<u8>>>,
    pub now: u64,
    pub encode: Encode,
}

/// One step carried out: the next step, and what the store holds then.
pub open spec fn carry_out(step: StepView, store: Objects, around: Surroundings) -> (
    StepView,
    Objects,
) {
    match step {
        StepView::Probe(p) => (p.probed(store.contains_key(p.current_key())), store),
        StepView::Fetch(p) => (p.fetched(store[p.current_key()]), store),
        StepView::Read(p) => (p.read(around.disk[p.fates.len() as int]), store),
        StepView::PutFile(p, bytes) => (p.put(bytes), store.insert(p.current_key(), bytes)),
        StepView::PutJournal(p, at, object) => (
            p.after_journals(at + 1),
            store.insert(p.journal_key_at(at), object),
        ),
        StepView::Clock(p) => (p.clocked(around.now), store),
        StepView::PutRecord(p, record) => (
            p.committed(record),
            store.insert(p.layout.version_key(record.seqno), (around.encode)(record)),
        ),
        StepView::PutSnapshot(p, record) => (
            p.copied(record),
            store.insert(p.layout.snapshot_key(record.seqno), (around.encode)(record)),
        ),
        StepView::Done(_) => (step, store),
        StepView::Failed => (step, store),
    }
}

/// `n` steps carried out.
pub open spec fn run(step: StepView, store: Objects, around: Surroundings, n: nat) -> (
    StepView,
    Objects,
)
    decreases n,
{
    if n == 0 {
        (step, store)
    } else {
        let (last, objects) = run(step, store, around, (n - 1) as nat);
        carry_out(last, objects, around)
    }
}

/// The replication of a version begins with no file settled.
pub open spec fn begins(p: Progress) -> bool {
    p.fates.len() == 0
}

/// Whether the version record is written.
pub open spec fn committed(step: StepView) -> bool {
    step is PutSnapshot || step is Done
}

/// The store holds the kept files, and the first `journals` journals as they were compressed.
pub open spec fn uploaded(p: Progress, store: Objects, journals: int) -> bool {
    let kept = kept_ids(p.version.files, p.fates);
    &&& forall|i: int|
        0 <= i < kept.len() ==> store.contains_key(p.layout.file_key(#[trigger] kept[i]))
    &&& forall|j: int|
        0 <= j < journals ==> store.contains_key(
            p.layout.journal_key(p.version.seqno, (#[trigger] p.version.journals[j]).path),
        )
}

/// The two are stages of the replication of one version.
pub open spec fn same_job(first: Progress, p: Progress) -> bool {
    &&& p.layout == first.layout
    &&& p.version == first.version
    &&& p.known == first.known
    &&& p.rebase == first.rebase
    &&& p.last_ts == first.last_ts
}

/// A step that is reached from the beginning of the replication of `version` under `layout`.
pub open spec fn on_track(first: Progress, step: StepView, store: Objects, around: Surroundings) -> bool {
    match step {
        StepView::Probe(p) | StepView::Read(p) => {
            &&& same_job(first, p)
            &&& p.fates.len() < p.version.files.len()
            &&& uploaded(p, store, 0)
        },
        StepView::Fetch(p) => {
            &&& same_job(first, p)
            &&& p.fates.len() < p.version.files.len()
            &&& uploaded(p, store, 0)
            &&& store.contains_key(p.layout.file_key(p.current_id()))
        },
        StepView::PutFile(p, bytes) => {
            &&& same_job(first, p)
            &&& p.fates.len() < p.version.files.len()
            &&& uploaded(p, store, 0)
            &&& around.disk[p.fates.len() as int] == Some(bytes)
        },
        StepView::PutJournal(p, at, object) => {
            &&& same_job(first, p)
            &&& p.fates.len() == p.version.files.len()
            &&& 0 <= at < p.version.journals.len()
            &&& uploaded(p, store, at)
            &&& gzip_stream(p.version.journals[at].bytes) == Some(object)
        },
        StepView::Clock(p) => {
            &&& same_job(first, p)
            &&& p.fates.len() == p.version.files.len()
            &&& uploaded(p, store, p.version.journals.len() as int)
        },
        StepView::PutRecord(p, record) | StepView::PutSnapshot(p, record) => {
            &&& same_job(first, p)
            &&& p.fates.len() == p.version.files.len()
            &&& uploaded(p, store, p.version.journals.len() as int)
            &&& record == p.record(around.now)
        },
        StepView::Done(_) => true,
        StepView::Failed => true,
    }
}

/// A larger store holds what a smaller one holds.
pub proof fn lemma_uploaded_grows(p: Progress, store: Objects, objects: Objects, journals: int)
    requires
        uploaded(p, store, journals),
        forall|k: Seq<char>| #[trigger] store.contains_key(k) ==> objects.contains_key(k),
    ensures
        uploaded(p, objects, journals),
{
}

/// One more settled file: it vanished, or the store holds it.
pub proof fn lemma_uploaded_with(p: Progress, fate: Fate, store: Objects)
    requires
        uploaded(p, store, 0),
        fate is Vanished || store.contains_key(p.layout.file_key(p.current_id())),
    ensures
        uploaded(p.with(fate), store, 0),
{
    let q = p.with(fate);
    assert(q.fates.drop_last() =~= p.fates);
    let kept = kept_ids(p.version.files, p.fates);
    let now = kept_ids(q.version.files, q.fates);
    assert forall|i: int| 0 <= i < now.len() implies store.contains_key(
        q.layout.file_key(#[trigger] now[i]),
    ) by {
        if i < kept.len() {
            assert(now[i] == kept[i]);
        } else {
            assert(now[i] == p.current_id());
        }
    }
}

proof fn lemma_after_journals_on_track(
    first: Progress,
    p: Progress,
    at: int,
    store: Objects,
    around: Surroundings,
)
    requires
        same_job(first, p),
        p.fates.len() == p.version.files.len(),
        0 <= at <= p.version.journals.len(),
        uploaded(p, store, at),
    ensures
        on_track(first, p.after_journals(at), store, around),
{
}

proof fn lemma_after_files_on_track(first: Progress, p: Progress, store: Objects, around: Surroundings)
    requires
        same_job(first, p),
        p.fates.len() <= p.version.files.len(),
        uploaded(p, store, 0),
    ensures
        on_track(first, p.after_files(), store, around),
{
    if p.fates.len() == p.version.files.len() {
        lemma_after_journals_on_track(first, p, 0, store, around);
    }
}

/// Every step leads to one that is on track.
proof fn lemma_stays_on_track(first: Progress, step: StepView, store: Objects, around: Surroundings)
    requires
        on_track(first, step, store, around),
    ensures
        ({
            let (next, objects) = carry_out(step, store, around);
            on_track(first, next, objects, around)
        }),
{
    let (next, objects) = carry_out(step, store, around);
    match step {
        StepView::Probe(p) => {
            if store.contains_key(p.layout.file_key(p.current_id())) && p.current_is_known() {
                lemma_uploaded_with(p, Fate::Present, store);
                lemma_after_files_on_track(first, p.with(Fate::Present), store, around);
            }
        },
        StepView::Fetch(p) => {
            let fate = Fate::Fetched(store[p.layout.file_key(p.current_id())]);
            lemma_uploaded_with(p, fate, store);
            lemma_after_files_on_track(first, p.with(fate), store, around);
        },
        StepView::Read(p) => {
            if around.disk[p.fates.len() as int] is None {
                lemma_uploaded_with(p, Fate::Vanished, store);
                lemma_after_files_on_track(first, p.with(Fate::Vanished), store, around);
            }
        },
        StepView::PutFile(p, bytes) => {
            lemma_uploaded_grows(p, store, objects, 0);
            lemma_uploaded_with(p, Fate::Uploaded(bytes), objects);
            lemma_after_files_on_track(first, p.with(Fate::Uploaded(bytes)), objects, around);
        },
        StepView::PutJournal(p, at, object) => {
            lemma_uploaded_grows(p, store, objects, at);
            lemma_after_journals_on_track(first, p, at + 1, objects, around);
        },
        StepView::PutRecord(p, record) => {
            lemma_uploaded_grows(p, store, objects, p.version.journals.len() as int);
        },
        _ => {},
    }
}

/// Every step of a replication is on track.
pub proof fn lemma_run_on_track(first: Progress, store: Objects, around: Surroundings, n: nat)
    requires
        begins(first),
    ensures
        ({
            let (step, objects) = run(first.after_files(), store, around, n);
            on_track(first, step, objects, around)
        }),
    decreases n,
{
    if n == 0 {
        assert(kept_ids(first.version.files, first.fates) =~= Seq::empty());
        lemma_after_files_on_track(first, first, store, around);
    } else {
        lemma_run_on_track(first, store, around, (n - 1) as nat);
        let (step, objects) = run(first.after_files(), store, around, (n - 1) as nat);
        lemma_stays_on_track(first, step, objects, around);
    }
}

/// Recorded times advance: each is later than the one before, even where the clock is not, and
/// never earlier than the clock.
pub proof fn law_recorded_times_advance(p: Progress, now: u64)
    ensures
        p.record(now).ts_millis >= now,
        p.last_ts matches Some(before) ==> before < u64::MAX ==> p.record(now).ts_millis > before,
{
}

/// A partial upload is invisible to readers: wherever the replication of a version stops, as long
/// as its record was not written, the version records are what they were.
pub proof fn law_partial_uploads_are_invisible(
    first: Progress,
    store: Objects,
    around: Surroundings,
    n: nat,
    seqno: u64,
)
    requires
        begins(first),
        !committed(run(first.after_files(), store, around, n).0),
    ensures
        ({
            let objects = run(first.after_files(), store, around, n).1;
            let key = first.layout.version_key(seqno);
            &&& objects.contains_key(key) == store.contains_key(key)
            &&& store.contains_key(key) ==> objects[key] == store[key]
        }),
    decreases n,
{
    if n > 0 {
        let (step, objects) = run(first.after_files(), store, around, (n - 1) as nat);
        lemma_run_on_track(first, store, around, (n - 1) as nat);
        law_partial_uploads_are_invisible(first, store, around, (n - 1) as nat, seqno);
        match step {
            StepView::PutFile(p, bytes) => {
                law_keys_are_distinct(
                    first.layout,
                    p.current_id(),
                    p.current_id(),
                    seqno,
                    seqno,
                    Seq::empty(),
                    Seq::empty(),
                );
            },
            StepView::PutJournal(p, at, object) => {
                let name = p.version.journals[at].path;
                law_keys_are_distinct(
                    first.layout,
                    Seq::empty(),
                    Seq::empty(),
                    seqno,
                    p.version.seqno,
                    name,
                    name,
                );
            },
            _ => {},
        }
    }
}

/// Files are uploaded once: whatever the local disk holds by then, a file that the store has is
/// never overwritten.
pub proof fn law_files_are_uploaded_once(
    first: Progress,
    store: Objects,
    around: Surroundings,
    n: nat,
    id: Seq<char>,
)
    requires
        begins(first),
        store.contains_key(first.layout.file_key(id)),
    ensures
        ({
            let objects = run(first.after_files(), store, around, n).1;
            let key = first.layout.file_key(id);
            objects.contains_key(key) && objects[key] == store[key]
        }),
    decreases n,
{
    lemma_files_stay(first, store, around, n, id);
}

/// A put of a file is only reached where the store does not have it.
spec fn puts_only_new_files(step: StepView, store: Objects) -> bool {
    match step {
        StepView::Read(p) => !store.contains_key(p.layout.file_key(p.current_id())),
        StepView::PutFile(p, _) => !store.contains_key(p.layout.file_key(p.current_id())),
        _ => true,
    }
}

proof fn lemma_files_stay(
    first: Progress,
    store: Objects,
    around: Surroundings,
    n: nat,
    id: Seq<char>,
)
    requires
        begins(first),
    ensures
        ({
            let (step, objects) = run(first.after_files(), store, around, n);
            let key = first.layout.file_key(id);
            &&& puts_only_new_files(step, objects)
            &&& store.contains_key(key) ==> objects.contains_key(key) && objects[key] == store[key]
        }),
    decreases n,
{
    if n > 0 {
        let (step, objects) = run(first.after_files(), store, around, (n - 1) as nat);
        lemma_run_on_track(first, store, around, (n - 1) as nat);
        lemma_files_stay(first, store, around, (n - 1) as nat, id);
        let key = first.layout.file_key(id);
        match step {
            StepView::PutJournal(p, at, object) => {
                let name = p.version.journals[at].path;
                law_keys_are_distinct(first.layout, id, id, p.version.seqno, 0, name, name);
            },
            StepView::PutRecord(p, record) | StepView::PutSnapshot(p, record) => {
                law_keys_are_distinct(
                    first.layout,
                    id,
                    id,
                    record.seqno,
                    0,
                    Seq::empty(),
                    Seq::empty(),
                );
            },
            _ => {},
        }
    }
}

/// A crash never leaves a dangling record: wherever the replication of a version stops, each
/// version record in the bucket names its own sequence number, and everything that it references
/// is there.
pub proof fn law_records_never_dangle(
    first: Progress,
    store: Objects,
    around: Surroundings,
    decode: Decode,
    n: nat,
)
    requires
        begins(first),
        lossless(around.encode, decode),
        sound(first.layout, store, decode),
    ensures
        sound(first.layout, run(first.after_files(), store, around, n).1, decode),
    decreases n,
{
    if n > 0 {
        let (step, objects) = run(first.after_files(), store, around, (n - 1) as nat);
        let (next, after) = carry_out(step, objects, around);
        let layout = first.layout;
        lemma_run_on_track(first, store, around, (n - 1) as nat);
        law_records_never_dangle(first, store, around, decode, (n - 1) as nat);
        assert(forall|k: Seq<char>| objects.contains_key(k) ==> #[trigger] after.contains_key(k));
        assert forall|seqno: u64| #[trigger] sound_at(layout, after, decode, seqno) by {
            assert(sound_at(layout, objects, decode, seqno));
            lemma_version_objects(first, step, objects, around, seqno);
            if step is PutRecord && seqno == (step->PutRecord_1).seqno {
                let p = step->PutRecord_0;
                let r = step->PutRecord_1;
                assert(decode((around.encode)(r)) == Some(r));
                assert(complete(layout, after, r)) by {
                    assert forall|i: int| 0 <= i < r.journals.len() implies after.contains_key(
                        layout.journal_key(r.seqno, #[trigger] r.journals[i]),
                    ) by {
                        assert(r.journals[i] == p.version.journals[i].path);
                    }
                }
            }
        }
    }
}

/// A step writes a version record only where it says so.
proof fn lemma_version_objects(
    first: Progress,
    step: StepView,
    store: Objects,
    around: Surroundings,
    seqno: u64,
)
    requires
        on_track(first, step, store, around),
    ensures
        ({
            let after = carry_out(step, store, around).1;
            let key = first.layout.version_key(seqno);
            if step is PutRecord && seqno == (step->PutRecord_1).seqno {
                after.contains_key(key) && after[key] == (around.encode)(step->PutRecord_1)
            } else {
                after.contains_key(key) == store.contains_key(key) && after[key] == store[key]
            }
        }),
{
    match step {
        StepView::PutFile(p, bytes) => {
            law_keys_are_distinct(
                first.layout,
                p.current_id(),
                p.current_id(),
                seqno,
                seqno,
                Seq::empty(),
                Seq::empty(),
            );
        },
        StepView::PutJournal(p, at, object) => {
            let name = p.version.journals[at].path;
            law_keys_are_distinct(
                first.layout,
                Seq::empty(),
                Seq::empty(),
                seqno,
                p.version.seqno,
                name,
                name,
            );
        },
        StepView::PutRecord(p, record) | StepView::PutSnapshot(p, record) => {
            law_keys_are_distinct(
                first.layout,
                Seq::empty(),
                Seq::empty(),
                seqno,
                record.seqno,
                Seq::empty(),
                Seq::empty(),
            );
        },
        _ => {},
    }
}

} // verus!
