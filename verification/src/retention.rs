//! What leaves the bucket, and what stays.
//!
//! The newest versions stay, with everything that they reference. Older version records go, with
//! their journals, and so do the files that no retained version references. A version record is
//! deleted before anything that it references, so that a crash mid-prune never leaves a dangling
//! record.

use vstd::prelude::*;
use vstd::string::*;
use crate::keyset::KeySet;
use crate::layout::Layout;
use crate::layout_laws::law_version_key_parses_back;
use crate::lists::lemma_push_contains;
use crate::text::{has_prefix, same_text, starts_with, texts};
use crate::types::{FileId, RecordView, VersionRecord};

verus! {

/// Sequence numbers in strictly ascending order.
pub open spec fn ascending(s: Seq<u64>) -> bool {
    forall|i: int, j: int| 0 <= i < j < s.len() ==> #[trigger] s[i] < #[trigger] s[j]
}

/// The versions of a generation, parted by the retention window, each part in ascending order.
pub struct Window {
    /// The versions that are older than the window.
    pub expired: Vec<u64>,
    /// The versions in the window.
    pub retained: Vec<u64>,
}

impl Layout {
    /// The sequence number whose version record lives under `key`, if there is one.
    pub fn version_at(&self, key: &str) -> (r: Option<u64>)
        ensures
            match r {
                Some(seqno) => key@ == self.version_key(seqno),
                None => forall|seqno: u64| key@ != #[trigger] self.version_key(seqno),
            },
    {
        proof {
            assert forall|seqno: u64| key@ == #[trigger] self.version_key(seqno) implies
                crate::layout::version_key_seqno(key@) == Some(seqno) by {
                law_version_key_parses_back(*self, seqno);
            }
        }
        match Layout::seqno_from_version_key(key) {
            Some(seqno) => if same_text(self.version(seqno).as_str(), key) {
                Some(seqno)
            } else {
                None
            },
            None => None,
        }
    }
}

/// Add a sequence number to an ascending list that may already hold it.
fn insert_seqno(list: &mut Vec<u64>, seqno: u64)
    requires
        ascending(old(list)@),
    ensures
        ascending(final(list)@),
        forall|s: u64| #[trigger]
            final(list)@.contains(s) <==> old(list)@.contains(s) || s == seqno,
{
    let ghost was = list@;
    let mut at: usize = list.len();
    while at > 0 && list[at - 1] > seqno
        invariant
            at <= list.len(),
            list@ == was,
            ascending(was),
            forall|j: int| at <= j < was.len() ==> #[trigger] was[j] > seqno,
        decreases at,
    {
        at -= 1;
    }
    if at > 0 && list[at - 1] == seqno {
        assert(was[at - 1] == seqno);
        return;
    }
    list.insert(at, seqno);
    proof {
        let now = list@;
        assert(now =~= was.insert(at as int, seqno));
        assert forall|i: int, j: int| 0 <= i < j < now.len() implies #[trigger] now[i]
            < #[trigger] now[j] by {
            if i < at {
                assert(now[i] == was[i]);
                assert(was[i] <= was[at - 1]);
            } else if i > at {
                assert(now[i] == was[i - 1]);
            }
            if j < at {
                assert(now[j] == was[j]);
            } else if j > at {
                assert(now[j] == was[j - 1]);
            }
        }
        assert forall|s: u64| #[trigger] now.contains(s) <==> was.contains(s) || s == seqno by {
            if now.contains(s) && s != seqno {
                let i = now.index_of(s);
                assert(was[if i < at { i } else { i - 1 }] == s);
            }
            if was.contains(s) {
                let i = was.index_of(s);
                assert(now[if i < at { i } else { i + 1 }] == s);
            }
            assert(now[at as int] == seqno);
        }
    }
}

/// Part the versions whose records are listed in `keys`: the newest `retention` stay.
pub fn window(layout: &Layout, keys: &Vec<String>, retention: u64) -> (r: Window)
    ensures
        ascending(r.expired@ + r.retained@),
        forall|seqno: u64| #[trigger]
            (r.expired@ + r.retained@).contains(seqno) <==> texts(keys@).contains(
                layout.version_key(seqno),
            ),
        r.retained@.len() <= retention,
        r.expired@.len() > 0 ==> r.retained@.len() == retention,
{
    let ghost all = texts(keys@);
    let mut seqnos: Vec<u64> = Vec::new();
    let mut i: usize = 0;
    while i < keys.len()
        invariant
            i <= keys.len(),
            all == texts(keys@),
            ascending(seqnos@),
            forall|seqno: u64| #[trigger]
                seqnos@.contains(seqno) <==> all.take(i as int).contains(layout.version_key(seqno)),
        decreases keys.len() - i,
    {
        let ghost was = seqnos@;
        let found: Option<u64> = layout.version_at(keys[i].as_str());
        if let Some(seqno) = found {
            insert_seqno(&mut seqnos, seqno);
        }
        proof {
            let key = keys[i as int]@;
            assert(all.take(i + 1) =~= all.take(i as int).push(key));
            assert forall|seqno: u64| #[trigger]
                seqnos@.contains(seqno) <==> all.take(i + 1).contains(
                    layout.version_key(seqno),
                ) by {
                let k = layout.version_key(seqno);
                lemma_push_contains(all.take(i as int), key, k);
                assert(was.contains(seqno) <==> all.take(i as int).contains(k));
                if k == key {
                    law_version_key_parses_back(*layout, seqno);
                    law_version_key_parses_back(*layout, found->0);
                }
            }
        }
        i += 1;
    }
    assert(all.take(i as int) =~= all);
    let total: usize = seqnos.len();
    let cut: usize = if total as u64 > retention { total - (retention as usize) } else { 0 };
    let ghost every = seqnos@;
    let retained = seqnos.split_off(cut);
    let r = Window { expired: seqnos, retained };
    assert(r.expired@ + r.retained@ =~= every);
    r
}

/// What a list of version records says.
pub open spec fn record_views(v: Seq<VersionRecord>) -> Seq<RecordView> {
    Seq::new(v.len(), |i: int| v[i]@)
}

/// Whether `key` is that of a file which one of the records references.
pub open spec fn is_live(layout: Layout, records: Seq<RecordView>, key: Seq<char>) -> bool {
    exists|i: int, j: int|
        0 <= i < records.len() && 0 <= j < records[i].file_ids.len() && key == layout.file_key(
            #[trigger] records[i].file_ids[j],
        )
}

/// Whether `key` is that of a journal of one of the versions.
pub open spec fn is_journal_of(layout: Layout, seqnos: Seq<u64>, key: Seq<char>) -> bool {
    exists|i: int|
        0 <= i < seqnos.len() && starts_with(
            key,
            #[trigger] layout.journal_dir_key(seqnos[i]) + "/"@,
        )
}

/// The prefixes under which the journals of these versions live.
pub fn journal_prefixes(layout: &Layout, seqnos: &Vec<u64>) -> (r: Vec<String>)
    ensures
        texts(r@) == Seq::new(seqnos@.len(), |i: int| layout.journal_dir_key(seqnos@[i])),
{
    let ghost all = Seq::new(seqnos@.len(), |i: int| layout.journal_dir_key(seqnos@[i]));
    let mut out: Vec<String> = Vec::new();
    let mut i: usize = 0;
    assert(texts(out@) =~= all.take(0));
    while i < seqnos.len()
        invariant
            i <= seqnos.len(),
            all == Seq::new(seqnos@.len(), |i: int| layout.journal_dir_key(seqnos@[i])),
            texts(out@) == all.take(i as int),
        decreases seqnos.len() - i,
    {
        let ghost before = texts(out@);
        out.push(layout.journals_prefix(seqnos[i]));
        assert(texts(out@) =~= before.push(all[i as int]));
        assert(all.take(i + 1) =~= all.take(i as int).push(all[i as int]));
        i += 1;
    }
    assert(all.take(i as int) =~= all);
    out
}

/// The keys of all files that the records reference.
fn live_keys(layout: &Layout, records: &Vec<VersionRecord>) -> (r: KeySet)
    ensures
        forall|k: Seq<char>| #[trigger]
            r@.contains(k) <==> is_live(*layout, record_views(records@), k),
{
    let ghost views = record_views(records@);
    let mut out = KeySet::new();
    let mut i: usize = 0;
    while i < records.len()
        invariant
            i <= records.len(),
            views == record_views(records@),
            forall|k: Seq<char>| #[trigger]
                out@.contains(k) <==> is_live(*layout, views.take(i as int), k),
        decreases records.len() - i,
    {
        let ids: &Vec<FileId> = &records[i].file_ids;
        let ghost before = out@;
        let mut j: usize = 0;
        while j < ids.len()
            invariant
                j <= ids.len(),
                i < records.len(),
                views == record_views(records@),
                ids@ == records[i as int].file_ids@,
                forall|k: Seq<char>| #[trigger]
                    out@.contains(k) <==> before.contains(k) || exists|l: int|
                        0 <= l < j && k == layout.file_key(#[trigger] views[i as int].file_ids[l]),
            decreases ids.len() - j,
        {
            let key = layout.file(&ids[j]);
            let ghost was = out@;
            out.insert(key.as_str());
            proof {
                assert(views[i as int].file_ids[j as int] == ids[j as int].0@);
                assert forall|k: Seq<char>| #[trigger]
                    out@.contains(k) <==> before.contains(k) || exists|l: int|
                        0 <= l < j + 1 && k == layout.file_key(
                            #[trigger] views[i as int].file_ids[l],
                        ) by {
                    assert(out@.contains(k) <==> was.contains(k) || k == key@);
                    if k == key@ {
                        assert(k == layout.file_key(views[i as int].file_ids[j as int]));
                    }
                }
            }
            j += 1;
        }
        proof {
            let head = views.take(i as int);
            let next = views.take(i + 1);
            assert forall|k: Seq<char>| #[trigger]
                out@.contains(k) <==> is_live(*layout, next, k) by {
                assert(before.contains(k) <==> is_live(*layout, head, k));
                if is_live(*layout, head, k) {
                    let (a, b) = choose|a: int, b: int|
                        0 <= a < head.len() && 0 <= b < head[a].file_ids.len() && k
                            == layout.file_key(#[trigger] head[a].file_ids[b]);
                    assert(k == layout.file_key(next[a].file_ids[b]));
                }
                if is_live(*layout, next, k) {
                    let (a, b) = choose|a: int, b: int|
                        0 <= a < next.len() && 0 <= b < next[a].file_ids.len() && k
                            == layout.file_key(#[trigger] next[a].file_ids[b]);
                    if a < i {
                        assert(k == layout.file_key(head[a].file_ids[b]));
                    } else {
                        assert(k == layout.file_key(views[i as int].file_ids[b]));
                    }
                }
                if exists|l: int|
                    0 <= l < ids.len() && k == layout.file_key(
                        #[trigger] views[i as int].file_ids[l],
                    ) {
                    let l = choose|l: int|
                        0 <= l < ids.len() && k == layout.file_key(
                            #[trigger] views[i as int].file_ids[l],
                        );
                    assert(k == layout.file_key(next[i as int].file_ids[l]));
                }
            }
        }
        i += 1;
    }
    assert(views.take(i as int) =~= views);
    out
}

/// The keys to delete, in order: the expired version records and their re-base copies, then their
/// journals, then the files that no retained record references.
pub open spec fn doomed(
    layout: Layout,
    expired: Seq<u64>,
    records: Seq<RecordView>,
    journal_keys: Seq<Seq<char>>,
    file_keys: Seq<Seq<char>>,
) -> Seq<Seq<char>> {
    Seq::new(expired.len(), |i: int| layout.version_key(expired[i])) + Seq::new(
        expired.len(),
        |i: int| layout.snapshot_key(expired[i]),
    ) + journal_keys.filter(|k: Seq<char>| is_journal_of(layout, expired, k)) + file_keys.filter(
        |k: Seq<char>| is_file_key(layout, k) && !is_live(layout, records, k),
    )
}

/// Whether `key` is that of an immutable file.
pub open spec fn is_file_key(layout: Layout, key: Seq<char>) -> bool {
    starts_with(key, layout.base_key() + "/files"@ + "/"@)
}

/// The keys to delete, in order. `records` are the retained version records, `journal_keys` what
/// the store lists under the [`journal_prefixes`] of the expired versions, `file_keys` what it
/// lists under [`Layout::files_prefix`].
pub fn deletions(
    layout: &Layout,
    expired: &Vec<u64>,
    records: &Vec<VersionRecord>,
    journal_keys: &Vec<String>,
    file_keys: &Vec<String>,
) -> (r: Vec<String>)
    ensures
        texts(r@) == doomed(
            *layout,
            expired@,
            record_views(records@),
            texts(journal_keys@),
            texts(file_keys@),
        ),
{
    let mut out: Vec<String> = Vec::new();
    let ghost versions = Seq::new(expired@.len(), |i: int| layout.version_key(expired@[i]));
    let ghost snapshots = Seq::new(expired@.len(), |i: int| layout.snapshot_key(expired@[i]));
    let mut i: usize = 0;
    assert(texts(out@) =~= versions.take(0));
    while i < expired.len()
        invariant
            i <= expired.len(),
            versions == Seq::new(expired@.len(), |i: int| layout.version_key(expired@[i])),
            texts(out@) == versions.take(i as int),
        decreases expired.len() - i,
    {
        let ghost before = texts(out@);
        out.push(layout.version(expired[i]));
        assert(texts(out@) =~= before.push(versions[i as int]));
        assert(versions.take(i + 1) =~= versions.take(i as int).push(versions[i as int]));
        i += 1;
    }
    assert(versions.take(i as int) =~= versions);
    let mut j: usize = 0;
    assert(texts(out@) =~= versions + snapshots.take(0));
    while j < expired.len()
        invariant
            j <= expired.len(),
            snapshots == Seq::new(expired@.len(), |i: int| layout.snapshot_key(expired@[i])),
            texts(out@) == versions + snapshots.take(j as int),
        decreases expired.len() - j,
    {
        let ghost before = texts(out@);
        out.push(layout.snapshot(expired[j]));
        assert(texts(out@) =~= before.push(snapshots[j as int]));
        assert(texts(out@) =~= versions + snapshots.take(j + 1));
        j += 1;
    }
    assert(snapshots.take(j as int) =~= snapshots);
    doomed_journals(layout, expired, journal_keys, &mut out);
    doomed_files(layout, records, file_keys, &mut out);
    out
}

fn doomed_journals(
    layout: &Layout,
    expired: &Vec<u64>,
    journal_keys: &Vec<String>,
    out: &mut Vec<String>,
)
    ensures
        texts(final(out)@) == texts(old(out)@) + texts(journal_keys@).filter(
            |k: Seq<char>| is_journal_of(*layout, expired@, k),
        ),
{
    let ghost before = texts(out@);
    let ghost all = texts(journal_keys@);
    let ghost goes = |k: Seq<char>| is_journal_of(*layout, expired@, k);
    let prefixes = journal_prefixes(layout, expired);
    let mut i: usize = 0;
    reveal(Seq::filter);
    assert(before + all.take(0).filter(goes) =~= before);
    while i < journal_keys.len()
        invariant
            i <= journal_keys.len(),
            all == texts(journal_keys@),
            goes == (|k: Seq<char>| is_journal_of(*layout, expired@, k)),
            texts(prefixes@) == Seq::new(
                expired@.len(),
                |i: int| layout.journal_dir_key(expired@[i]),
            ),
            texts(out@) == before + all.take(i as int).filter(goes),
        decreases journal_keys.len() - i,
    {
        let ghost was = texts(out@);
        let ghost key = journal_keys[i as int]@;
        proof {
            reveal(Seq::filter);
            assert(all.take(i + 1).drop_last() =~= all.take(i as int));
            assert(all.take(i + 1).last() == key);
            assert(texts(prefixes@).len() == expired@.len());
        }
        if under_any(&prefixes, journal_keys[i].as_str()) {
            proof {
                let l = choose|l: int|
                    0 <= l < prefixes@.len() && starts_with(key, #[trigger] texts(prefixes@)[l] + "/"@);
                assert(texts(prefixes@)[l] == layout.journal_dir_key(expired@[l]));
                assert(goes(key));
            }
            out.push(journal_keys[i].clone());
            assert(texts(out@) =~= was.push(key));
            assert(texts(out@) =~= before + all.take(i + 1).filter(goes));
        } else {
            proof {
                if goes(key) {
                    let l = choose|l: int|
                        0 <= l < expired@.len() && starts_with(
                            key,
                            #[trigger] layout.journal_dir_key(expired@[l]) + "/"@,
                        );
                    assert(texts(prefixes@)[l] == layout.journal_dir_key(expired@[l]));
                }
            }
        }
        i += 1;
    }
    assert(all.take(i as int) =~= all);
}

/// Whether `key` lies below one of the prefixes.
fn under_any(prefixes: &Vec<String>, key: &str) -> (r: bool)
    ensures
        r == exists|l: int|
            0 <= l < prefixes@.len() && starts_with(key@, #[trigger] texts(prefixes@)[l] + "/"@),
{
    let mut i: usize = 0;
    while i < prefixes.len()
        invariant
            i <= prefixes.len(),
            forall|l: int|
                0 <= l < i ==> !starts_with(key@, #[trigger] texts(prefixes@)[l] + "/"@),
        decreases prefixes.len() - i,
    {
        let mut dir = prefixes[i].clone();
        dir.append("/");
        if has_prefix(key, dir.as_str()) {
            assert(texts(prefixes@)[i as int] == prefixes[i as int]@);
            return true;
        }
        i += 1;
    }
    false
}

fn doomed_files(
    layout: &Layout,
    records: &Vec<VersionRecord>,
    file_keys: &Vec<String>,
    out: &mut Vec<String>,
)
    ensures
        texts(final(out)@) == texts(old(out)@) + texts(file_keys@).filter(
            |k: Seq<char>|
                is_file_key(*layout, k) && !is_live(*layout, record_views(records@), k),
        ),
{
    let ghost before = texts(out@);
    let ghost all = texts(file_keys@);
    let ghost goes = |k: Seq<char>|
        is_file_key(*layout, k) && !is_live(*layout, record_views(records@), k);
    let live = live_keys(layout, records);
    let mut dir = layout.files_prefix();
    dir.append("/");
    let mut i: usize = 0;
    reveal(Seq::filter);
    assert(before + all.take(0).filter(goes) =~= before);
    while i < file_keys.len()
        invariant
            i <= file_keys.len(),
            all == texts(file_keys@),
            goes == (|k: Seq<char>|
                is_file_key(*layout, k) && !is_live(*layout, record_views(records@), k)),
            dir@ == layout.base_key() + "/files"@ + "/"@,
            forall|k: Seq<char>| #[trigger]
                live@.contains(k) <==> is_live(*layout, record_views(records@), k),
            texts(out@) == before + all.take(i as int).filter(goes),
        decreases file_keys.len() - i,
    {
        let ghost was = texts(out@);
        let ghost key = file_keys[i as int]@;
        proof {
            reveal(Seq::filter);
            assert(all.take(i + 1).drop_last() =~= all.take(i as int));
            assert(all.take(i + 1).last() == key);
        }
        if has_prefix(file_keys[i].as_str(), dir.as_str()) && !live.contains(
            file_keys[i].as_str(),
        ) {
            out.push(file_keys[i].clone());
            assert(texts(out@) =~= was.push(key));
            assert(texts(out@) =~= before + all.take(i + 1).filter(goes));
        }
        i += 1;
    }
    assert(all.take(i as int) =~= all);
}

} // verus!
