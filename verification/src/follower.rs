//! Hot reader. A read-only database that tails the bucket and stays caught up: "restore that
//! never stops."
//!
//! A follower polls for the newest version record. When it is newer than what it serves, all of
//! its files are restored into a local directory of their own, checked and durable, and only then
//! the handle that readers use is swapped. In-flight reads finish on the old version. Files are
//! immutable, so only those that are not already local are downloaded.

use vstd::prelude::*;
use vstd::string::*;
use std::path::PathBuf;
use std::time::Duration;
use crate::decimal::push_decimal;
use crate::error::Error;
use crate::keyset::KeySet;
use crate::layout::{seqno_text, Layout};
use crate::lists::lemma_push_contains;
use crate::restore::{is_whole, Restored, RestoredView};
use crate::types::{id_texts, Cursor, FileId, VersionRecord};

verus! {

#[derive(Debug, Clone)]
pub struct FollowConfig {
    /// How often to poll the bucket for a newer version record.
    pub poll_interval: Duration,
    /// Local directory the follower materializes downloaded files into.
    pub local_dir: PathBuf,
}

/// A follower's memory.
pub struct Follower {
    layout: Layout,
    cfg: FollowConfig,
    /// The version the follower has fully downloaded and opened. `None` until first catch-up.
    applied: Option<Cursor>,
}

/// What a [`Follower`] knows.
#[verifier::ext_equal]
pub struct FollowerView {
    pub layout: Layout,
    pub cfg: FollowConfig,
    pub applied: Option<Cursor>,
}

impl View for Follower {
    type V = FollowerView;

    closed spec fn view(&self) -> FollowerView {
        FollowerView { layout: self.layout, cfg: self.cfg, applied: self.applied }
    }
}

impl FollowerView {
    /// Whether a version is newer than the one that is served.
    pub open spec fn is_news(self, seqno: u64) -> bool {
        self.applied matches Some(cursor) ==> seqno > cursor.version_seqno
    }

    /// The follower after a version was restored, opened, and swapped in.
    pub open spec fn adopted(self, seqno: u64) -> FollowerView {
        if self.is_news(seqno) {
            FollowerView {
                applied: Some(Cursor { version_seqno: seqno, journal_offset: 0 }),
                ..self
            }
        } else {
            self
        }
    }
}

impl Follower {
    /// A follower that serves nothing yet.
    pub fn new(layout: Layout, cfg: FollowConfig) -> (r: Self)
        ensures
            r@ == (FollowerView { layout, cfg, applied: None }),
    {
        Follower { layout, cfg, applied: None }
    }

    /// Where the objects live.
    pub fn layout(&self) -> (r: &Layout)
        ensures
            *r == self@.layout,
    {
        &self.layout
    }

    /// How this follower is set up.
    pub fn config(&self) -> (r: &FollowConfig)
        ensures
            *r == self@.cfg,
    {
        &self.cfg
    }

    /// Seqno watermark the follower currently serves reads at, for lag measurement against the
    /// primary's latest version.
    pub fn applied_seqno(&self) -> (r: Option<u64>)
        ensures
            r == match self@.applied {
                Some(cursor) => Some(cursor.version_seqno),
                None => None,
            },
    {
        match self.applied {
            Some(cursor) => Some(cursor.version_seqno),
            None => None,
        }
    }

    /// One catch-up step: what the search for the newest version record found decides whether to
    /// advance to it. There is nothing to do while no version was recorded, or none that is newer
    /// than the one that is served.
    pub fn poll_once(&self, newest: Result<VersionRecord, Error>) -> (r: Result<
        Option<VersionRecord>,
        Error,
    >)
        ensures
            r == match newest {
                Ok(record) => if self@.is_news(record.seqno) {
                    Ok::<Option<VersionRecord>, Error>(Some(record))
                } else {
                    Ok(None)
                },
                Err(Error::NotFound(_)) => Ok(None),
                Err(e) => Err(e),
            },
    {
        match newest {
            Ok(record) => {
                let news: bool = match self.applied {
                    Some(cursor) => record.seqno > cursor.version_seqno,
                    None => true,
                };
                if news {
                    Ok(Some(record))
                } else {
                    Ok(None)
                }
            },
            Err(Error::NotFound(_)) => Ok(None),
            Err(e) => Err(e),
        }
    }

    /// The name of the directory, in the local directory, that a version is restored into.
    pub fn version_dir(seqno: u64) -> (r: String)
        ensures
            r@ == seqno_text(seqno),
    {
        let mut out = String::new();
        push_decimal(&mut out, seqno, 20);
        assert(out@ =~= seqno_text(seqno));
        out
    }

    /// The version that was restored was opened and swapped in. Only a version of which everything
    /// is present and verified can be adopted. One that is not newer than the one that is served
    /// changes nothing. Returns whether the follower advanced.
    pub fn adopt(&mut self, restored: &Restored) -> (advanced: bool)
        ensures
            is_whole(restored@.record, restored@.landed),
            advanced == old(self)@.is_news(restored@.record.seqno),
            final(self)@ == old(self)@.adopted(restored@.record.seqno),
    {
        let seqno: u64 = restored.record().seqno;
        let news: bool = match self.applied {
            Some(cursor) => seqno > cursor.version_seqno,
            None => true,
        };
        if news {
            self.applied = Some(Cursor { version_seqno: seqno, journal_offset: 0 });
        }
        news
    }
}

/// The files that are not local, in order.
pub open spec fn missing_ids(ids: Seq<Seq<char>>, local: Seq<Seq<char>>) -> Seq<Seq<char>> {
    ids.filter(|id: Seq<char>| !local.contains(id))
}

/// The files of a version to download, in order: those that are not already local.
pub fn missing_files(record: &VersionRecord, local: &Vec<FileId>) -> (r: Vec<FileId>)
    ensures
        id_texts(r@) == missing_ids(record@.file_ids, id_texts(local@)),
{
    let ghost here = id_texts(local@);
    let mut have = KeySet::new();
    let mut j: usize = 0;
    while j < local.len()
        invariant
            j <= local.len(),
            here == id_texts(local@),
            forall|id: Seq<char>| #[trigger]
                have@.contains(id) <==> here.take(j as int).contains(id),
        decreases local.len() - j,
    {
        let ghost was = have@;
        let ghost id = local[j as int].0@;
        have.insert(local[j].0.as_str());
        proof {
            assert(here.take(j + 1) =~= here.take(j as int).push(id));
            assert forall|k: Seq<char>| #[trigger]
                have@.contains(k) <==> here.take(j + 1).contains(k) by {
                lemma_push_contains(here.take(j as int), id, k);
                assert(was.contains(k) <==> here.take(j as int).contains(k));
            }
        }
        j += 1;
    }
    assert(here.take(j as int) =~= here);
    let ghost all = record@.file_ids;
    let ghost goes = |id: Seq<char>| !here.contains(id);
    let mut out: Vec<FileId> = Vec::new();
    let mut i: usize = 0;
    proof {
        reveal(Seq::filter);
        assert(id_texts(out@) =~= all.take(0).filter(goes));
    }
    while i < record.file_ids.len()
        invariant
            i <= record.file_ids.len(),
            all == record@.file_ids,
            goes == (|id: Seq<char>| !here.contains(id)),
            forall|id: Seq<char>| #[trigger] have@.contains(id) <==> here.contains(id),
            id_texts(out@) == all.take(i as int).filter(goes),
        decreases record.file_ids.len() - i,
    {
        let ghost before = id_texts(out@);
        let ghost id = record.file_ids[i as int].0@;
        proof {
            reveal(Seq::filter);
            assert(all.take(i + 1).drop_last() =~= all.take(i as int));
            assert(all.take(i + 1).last() == id);
        }
        if !have.contains(record.file_ids[i].0.as_str()) {
            out.push(FileId(record.file_ids[i].0.clone()));
            assert(id_texts(out@) =~= before.push(id));
        }
        i += 1;
    }
    assert(all.take(i as int) =~= all);
    out
}

/// What is downloaded and what is local is together all that the version needs, and nothing that is
/// local is downloaded again.
pub proof fn law_only_missing_files_are_downloaded(
    ids: Seq<Seq<char>>,
    local: Seq<Seq<char>>,
    id: Seq<char>,
)
    ensures
        missing_ids(ids, local).contains(id) <==> ids.contains(id) && !local.contains(id),
{
    broadcast use vstd::seq_lib::group_filter_ensures;

    let goes = |id: Seq<char>| !local.contains(id);
    let missing = missing_ids(ids, local);
    if missing.contains(id) {
        ids.lemma_filter_contains_rev(goes, id);
        let i = missing.index_of(id);
        assert(goes(missing[i]));
    }
    if ids.contains(id) && !local.contains(id) {
        let i = ids.index_of(id);
        assert(goes(ids[i]));
        ids.lemma_filter_contains(goes, i);
    }
}

/// A follower never goes back: adopting a version leaves the served seqno where it was or moves
/// it forward, and afterwards that version is no news.
pub proof fn law_follower_never_goes_back(follower: FollowerView, seqno: u64)
    ensures
        follower.adopted(seqno).applied matches Some(now) && {
            &&& seqno <= now.version_seqno
            &&& follower.applied matches Some(then) ==> then.version_seqno <= now.version_seqno
            &&& !follower.adopted(seqno).is_news(seqno)
        },
{
}

/// The follower after it adopted these versions, in order.
pub open spec fn having_adopted(follower: FollowerView, versions: Seq<RestoredView>) -> FollowerView
    decreases versions.len(),
{
    if versions.len() == 0 {
        follower
    } else {
        having_adopted(follower, versions.drop_last()).adopted(versions.last().record.seqno)
    }
}

/// Download, then swap: the seqno that a follower serves is that of a version that was restored,
/// all of whose files were present and verified, and no version that it adopted is newer. It serves
/// nothing before the first.
pub proof fn law_only_whole_versions_are_served(
    follower: FollowerView,
    versions: Seq<RestoredView>,
)
    requires
        follower.applied is None,
        forall|i: int|
            0 <= i < versions.len() ==> is_whole(
                (#[trigger] versions[i]).record,
                versions[i].landed,
            ),
    ensures
        match having_adopted(follower, versions).applied {
            None => versions.len() == 0,
            Some(cursor) => {
                &&& exists|i: int|
                    0 <= i < versions.len() && (#[trigger] versions[i]).record.seqno
                        == cursor.version_seqno && is_whole(versions[i].record, versions[i].landed)
                &&& forall|i: int|
                    0 <= i < versions.len() ==> (#[trigger] versions[i]).record.seqno
                        <= cursor.version_seqno
            },
        },
    decreases versions.len(),
{
    if versions.len() > 0 {
        let rest = versions.drop_last();
        let last = versions.len() - 1;
        assert forall|i: int| 0 <= i < rest.len() implies is_whole(
            (#[trigger] rest[i]).record,
            rest[i].landed,
        ) by {
            assert(rest[i] == versions[i]);
        }
        law_only_whole_versions_are_served(follower, rest);
        let now = having_adopted(follower, versions).applied->0;
        let before = having_adopted(follower, rest);
        assert(is_whole(versions[last].record, versions[last].landed));
        if !before.is_news(versions[last].record.seqno) {
            let i = choose|i: int|
                0 <= i < rest.len() && (#[trigger] rest[i]).record.seqno == now.version_seqno
                    && is_whole(rest[i].record, rest[i].landed);
            assert(versions[i] == rest[i]);
        }
        assert forall|i: int| 0 <= i < versions.len() implies (#[trigger] versions[i]).record.seqno
            <= now.version_seqno by {
            if i < last {
                assert(rest[i] == versions[i]);
            }
        }
    }
}

/// A follower serves the newest of what it adopted: a version is news exactly if nothing is served yet
/// or it is later than what is served, and adopting one serves the later of the two.
pub proof fn law_the_later_version_is_served(follower: FollowerView, first: u64, second: u64)
    requires
        follower.applied is None,
    ensures
        follower.is_news(first),
        follower.adopted(first).applied == Some(
            Cursor { version_seqno: first, journal_offset: 0 },
        ),
        follower.adopted(first).is_news(second) == (second > first),
        follower.adopted(first).adopted(second).applied == Some(
            Cursor {
                version_seqno: if first < second {
                    second
                } else {
                    first
                },
                journal_offset: 0,
            },
        ),
        follower.adopted(first).layout == follower.layout,
        follower.adopted(first).cfg == follower.cfg,
{
}

/// Files are downloaded in the order of the record, each unless it is local.
pub proof fn law_missing_files_keep_their_order(
    ids: Seq<Seq<char>>,
    id: Seq<char>,
    local: Seq<Seq<char>>,
)
    ensures
        missing_ids(Seq::empty(), local) == Seq::<Seq<char>>::empty(),
        missing_ids(ids.push(id), local) == if local.contains(id) {
            missing_ids(ids, local)
        } else {
            missing_ids(ids, local).push(id)
        },
{
    reveal(Seq::filter);
    assert(ids.push(id).drop_last() =~= ids);
}

} // verus!
