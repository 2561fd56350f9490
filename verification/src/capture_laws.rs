//! Laws of capture: only a set of files that held still is captured, and the first one is.

use vstd::prelude::*;
use vstd::string::*;
use crate::capture::{
    names_of, read_whole, same_journals, CaptureView, CapturedView, TryView, WalkView,
    CAPTURE_RETRIES,
};
use crate::text::ends_with;
use crate::types::Content;

verus! {

/// All that one try sees: the walk (`None`: something vanished under it), the number of keyspaces
/// before and after, each pointer as it reads afterwards, the names in the database root, the read
/// of each journal, and the sequence number.
pub struct Sight {
    pub walk: Option<WalkView>,
    pub keyspaces_before: int,
    pub keyspaces_after: int,
    pub pointers: Seq<Option<Seq<u8>>>,
    pub names: Seq<Seq<char>>,
    pub reads: Seq<Option<(u64, Seq<u8>, u64)>>,
    pub seqno: u64,
}

/// The pointer with this index reads as the walk read it.
pub open spec fn pointer_held(sight: Sight, walk: WalkView, i: int) -> bool {
    sight.pointers[i] == Some(walk.pointers[i].bytes)
}

/// Nothing moved while this was seen: nothing vanished under the walk, no keyspace came or went,
/// no pointer changed, no journal came or went, and each journal was read whole.
pub open spec fn held_still(sight: Sight) -> bool {
    &&& sight.walk matches Some(walk)
    &&& sight.keyspaces_before == sight.keyspaces_after
    &&& forall|i: int| 0 <= i < walk.pointers.len() ==> #[trigger] pointer_held(sight, walk, i)
    &&& same_journals(sight.names, names_of(walk.journals))
    &&& forall|j: int| 0 <= j < walk.journals.len() ==> read_whole(#[trigger] sight.reads[j])
}

/// The bytes of a journal, as read.
pub open spec fn journal_read(sight: Sight, walk: WalkView, j: int) -> Content {
    Content { path: walk.journals[j].0, bytes: (sight.reads[j]->0).1 }
}

/// The first `n` journals, as read.
pub open spec fn journals_read(sight: Sight, walk: WalkView, n: nat) -> Seq<Content> {
    Seq::new(n, |j: int| journal_read(sight, walk, j))
}

/// The first step of a try.
pub open spec fn walked(attempt: TryView, sight: Sight) -> CaptureView {
    attempt.walked(sight.walk, sight.keyspaces_before, sight.keyspaces_after)
}

/// One step of a try answered with what is seen. A step that ends the try stays.
pub open spec fn answered(step: CaptureView, sight: Sight) -> CaptureView {
    match step {
        CaptureView::CheckPointer(attempt, walk, at) => attempt.checked(
            walk,
            at,
            sight.pointers[at],
        ),
        CaptureView::ListJournals(attempt, walk) => attempt.listed(walk, sight.names),
        CaptureView::ReadJournal(attempt, walk, at, read) => attempt.journal_read(
            walk,
            at,
            read,
            sight.reads[at],
        ),
        _ => step,
    }
}

/// `n` steps answered.
pub open spec fn carried_on(step: CaptureView, sight: Sight, n: nat) -> CaptureView
    decreases n,
{
    if n == 0 {
        step
    } else {
        carried_on(answered(step, sight), sight, (n - 1) as nat)
    }
}

proof fn lemma_ended(step: CaptureView, sight: Sight, n: nat)
    requires
        step is Again || step is GiveUp || step is ReadSeqno,
    ensures
        carried_on(step, sight, n) == step,
    decreases n,
{
    if n > 0 {
        lemma_ended(step, sight, (n - 1) as nat);
    }
}

proof fn lemma_journals(attempt: TryView, sight: Sight, walk: WalkView, at: nat, n: nat)
    requires
        at <= walk.journals.len(),
        n >= walk.journals.len() - at,
    ensures
        carried_on(
            attempt.after_journals(walk, at as int, journals_read(sight, walk, at)),
            sight,
            n,
        ) == if forall|j: int|
            at <= j < walk.journals.len() ==> read_whole(#[trigger] sight.reads[j]) {
            CaptureView::ReadSeqno(attempt, walk, journals_read(sight, walk, walk.journals.len()))
        } else {
            attempt.again()
        },
    decreases n,
{
    let step = attempt.after_journals(walk, at as int, journals_read(sight, walk, at));
    if at < walk.journals.len() {
        if read_whole(sight.reads[at as int]) {
            assert(journals_read(sight, walk, at).push(journal_read(sight, walk, at as int))
                =~= journals_read(sight, walk, at + 1));
            lemma_journals(attempt, sight, walk, at + 1, (n - 1) as nat);
        } else {
            lemma_ended(attempt.again(), sight, (n - 1) as nat);
        }
    } else {
        lemma_ended(step, sight, n);
    }
}

proof fn lemma_pointers(attempt: TryView, sight: Sight, walk: WalkView, at: nat, n: nat)
    requires
        at <= walk.pointers.len(),
        n >= walk.pointers.len() - at + 1 + walk.journals.len(),
    ensures
        carried_on(attempt.after_pointers(walk, at as int), sight, n) == if {
            &&& forall|i: int|
                at <= i < walk.pointers.len() ==> #[trigger] pointer_held(sight, walk, i)
            &&& same_journals(sight.names, names_of(walk.journals))
            &&& forall|j: int|
                0 <= j < walk.journals.len() ==> read_whole(#[trigger] sight.reads[j])
        } {
            CaptureView::ReadSeqno(attempt, walk, journals_read(sight, walk, walk.journals.len()))
        } else {
            attempt.again()
        },
    decreases n,
{
    if at < walk.pointers.len() {
        if pointer_held(sight, walk, at as int) {
            lemma_pointers(attempt, sight, walk, at + 1, (n - 1) as nat);
        } else {
            lemma_ended(attempt.again(), sight, (n - 1) as nat);
        }
    } else if same_journals(sight.names, names_of(walk.journals)) {
        assert(journals_read(sight, walk, 0) =~= Seq::empty());
        lemma_journals(attempt, sight, walk, 0, (n - 1) as nat);
    } else {
        lemma_ended(attempt.again(), sight, (n - 1) as nat);
    }
}

/// How many steps a try takes at most.
pub open spec fn steps_of(sight: Sight) -> nat {
    match sight.walk {
        Some(walk) => walk.pointers.len() + 1 + walk.journals.len(),
        None => 0,
    }
}

/// A try captures what it saw exactly if nothing moved while it looked, and else gives way to the
/// next try. It always ends.
pub proof fn law_only_what_held_still_is_captured(attempt: TryView, sight: Sight, n: nat)
    requires
        n >= steps_of(sight),
    ensures
        carried_on(walked(attempt, sight), sight, n) == if held_still(sight) {
            let walk = sight.walk->0;
            CaptureView::ReadSeqno(attempt, walk, journals_read(sight, walk, walk.journals.len()))
        } else {
            attempt.again()
        },
{
    match sight.walk {
        Some(walk) => if sight.keyspaces_before == sight.keyspaces_after {
            lemma_pointers(attempt, sight, walk, 0, n);
        } else {
            lemma_ended(attempt.again(), sight, n);
        },
        None => {
            lemma_ended(attempt.again(), sight, n);
        },
    }
}

/// What a capture gives that sees these sights, one per try, from `attempt` on. `None` if it gives
/// up.
pub open spec fn capture_of(attempt: TryView, sights: Seq<Sight>) -> Option<CapturedView>
    decreases CAPTURE_RETRIES - attempt.attempt,
{
    let sight = sights[attempt.attempt];
    match carried_on(walked(attempt, sight), sight, steps_of(sight)) {
        CaptureView::ReadSeqno(by, walk, read) => Some(by.captured(walk, read, sight.seqno)),
        CaptureView::Again(next) => if attempt.attempt < next.attempt < CAPTURE_RETRIES {
            capture_of(next, sights)
        } else {
            None
        },
        _ => None,
    }
}

/// A capture returns the first try that held still, and says how many were dropped before it. It
/// gives up only where each of its tries saw something move.
pub proof fn law_the_first_stable_try_is_captured(attempt: TryView, sights: Seq<Sight>)
    requires
        0 <= attempt.attempt < CAPTURE_RETRIES,
        sights.len() == CAPTURE_RETRIES,
    ensures
        match capture_of(attempt, sights) {
            Some(captured) => {
                let k = captured.retries;
                let walk = sights[k].walk->0;
                &&& attempt.attempt <= k < CAPTURE_RETRIES
                &&& held_still(sights[k])
                &&& forall|l: int| attempt.attempt <= l < k ==> !held_still(#[trigger] sights[l])
                &&& captured == (TryView { attempt: k, ..attempt }).captured(
                    walk,
                    journals_read(sights[k], walk, walk.journals.len()),
                    sights[k].seqno,
                )
            },
            None => forall|l: int|
                attempt.attempt <= l < CAPTURE_RETRIES ==> !held_still(#[trigger] sights[l]),
        },
    decreases CAPTURE_RETRIES - attempt.attempt,
{
    let sight = sights[attempt.attempt];
    law_only_what_held_still_is_captured(attempt, sight, steps_of(sight));
    if !held_still(sight) && attempt.attempt + 1 < CAPTURE_RETRIES {
        law_the_first_stable_try_is_captured(
            TryView { attempt: attempt.attempt + 1, ..attempt },
            sights,
        );
    }
}

/// Nothing moved, field by field: what a stable try saw.
pub open spec fn nothing_moved(sight: Sight) -> bool {
    &&& sight.walk matches Some(walk)
    &&& sight.keyspaces_before == sight.keyspaces_after
    &&& forall|i: int|
        0 <= i < walk.pointers.len() ==> #[trigger] sight.pointers[i] == Some(walk.pointers[i].bytes)
    &&& forall|name: Seq<char>|
        (exists|j: int| 0 <= j < walk.journals.len() && (#[trigger] walk.journals[j]).0 == name) <==> (
        #[trigger] sight.names.contains(name) && name.len() >= 4 && name.subrange(
            name.len() - 4,
            name.len() as int,
        ) == seq!['.', 'j', 'n', 'l'])
    &&& forall|j: int|
        0 <= j < walk.journals.len() ==> (#[trigger] sight.reads[j] matches Some((before, bytes, after))
            && before == bytes.len() && after == bytes.len())
}

proof fn lemma_nothing_moved(sight: Sight)
    ensures
        nothing_moved(sight) <==> held_still(sight),
{
    reveal_strlit(".jnl");
    assert(".jnl"@ =~= seq!['.', 'j', 'n', 'l']);
    if let Some(walk) = sight.walk {
        let seen = names_of(walk.journals);
        assert forall|name: Seq<char>| #[trigger] ends_with(name, ".jnl"@) <==> name.len() >= 4
            && name.subrange(name.len() - 4, name.len() as int) == seq!['.', 'j', 'n', 'l'] by {
            if name.len() >= 4 {
                assert(name.skip(name.len() - 4) =~= name.subrange(
                    name.len() - 4,
                    name.len() as int,
                ));
            }
        }
        assert forall|name: Seq<char>|
            #![trigger seen.contains(name)]
            #![trigger sight.names.contains(name)]
            seen.contains(name) <==> exists|j: int|
                0 <= j < walk.journals.len() && (#[trigger] walk.journals[j]).0 == name by {
            if seen.contains(name) {
                let j = seen.index_of(name);
                assert(walk.journals[j].0 == name);
            }
            if exists|j: int| 0 <= j < walk.journals.len() && (#[trigger] walk.journals[j]).0 == name {
                let j = choose|j: int|
                    0 <= j < walk.journals.len() && (#[trigger] walk.journals[j]).0 == name;
                assert(seen[j] == name);
            }
        }
        if held_still(sight) {
            assert forall|i: int| 0 <= i < walk.pointers.len() implies #[trigger] sight.pointers[i]
                == Some(walk.pointers[i].bytes) by {
                assert(pointer_held(sight, walk, i));
            }
            assert forall|name: Seq<char>|
                (exists|j: int|
                    0 <= j < walk.journals.len() && (#[trigger] walk.journals[j]).0 == name) <==> (
                #[trigger] sight.names.contains(name) && name.len() >= 4 && name.subrange(
                    name.len() - 4,
                    name.len() as int,
                ) == seq!['.', 'j', 'n', 'l']) by {
                assert(seen.contains(name) <==> sight.names.contains(name) && ends_with(
                    name,
                    ".jnl"@,
                ));
            }
            assert forall|j: int| 0 <= j < walk.journals.len() implies (
            #[trigger] sight.reads[j] matches Some((before, bytes, after)) && before == bytes.len()
                && after == bytes.len()) by {
                assert(read_whole(sight.reads[j]));
            }
        }
        if nothing_moved(sight) {
            assert forall|i: int| 0 <= i < walk.pointers.len() implies #[trigger] pointer_held(
                sight,
                walk,
                i,
            ) by {
                assert(sight.pointers[i] == Some(walk.pointers[i].bytes));
            }
            assert forall|name: Seq<char>| #[trigger]
                seen.contains(name) <==> sight.names.contains(name) && ends_with(name, ".jnl"@) by {
                assert(sight.names.contains(name) || !sight.names.contains(name));
            }
            assert(same_journals(sight.names, seen));
        }
    }
}

/// What a capture returns was seen by one of its eight tries, the first in which nothing moved, and
/// nothing of it is left out or made up: the parent that was given, the sequence number that was
/// read, the files, directories and pointers of the walk, and each journal with the bytes that were
/// read. It gives up only where something moved in each of the eight.
pub proof fn law_a_capture_returns_what_a_stable_try_saw(parent: Option<u64>, sights: Seq<Sight>)
    requires
        sights.len() == 8,
    ensures
        match capture_of(TryView { parent, attempt: 0 }, sights) {
            Some(captured) => {
                let k = captured.retries;
                let version = captured.version;
                &&& 0 <= k < 8
                &&& nothing_moved(sights[k])
                &&& forall|l: int| 0 <= l < k ==> !nothing_moved(#[trigger] sights[l])
                &&& sights[k].walk matches Some(walk) && {
                    &&& version.parent == parent
                    &&& version.seqno == sights[k].seqno
                    &&& captured.files == walk.files
                    &&& version.files.len() == walk.files.len()
                    &&& forall|i: int|
                        0 <= i < walk.files.len() ==> #[trigger] version.files[i] == walk.files[i].0
                    &&& version.dirs == walk.dirs
                    &&& version.pointers == walk.pointers
                    &&& version.journals.len() == walk.journals.len()
                    &&& forall|j: int|
                        0 <= j < walk.journals.len() ==> (#[trigger] version.journals[j]).path
                            == walk.journals[j].0 && (sights[k].reads[j] matches Some((_, bytes, _))
                            && version.journals[j].bytes == bytes)
                }
            },
            None => forall|l: int| 0 <= l < 8 ==> !nothing_moved(#[trigger] sights[l]),
        },
{
    let attempt = TryView { parent, attempt: 0 };
    law_the_first_stable_try_is_captured(attempt, sights);
    assert forall|l: int| 0 <= l < 8 implies nothing_moved(#[trigger] sights[l]) == held_still(
        sights[l],
    ) by {
        lemma_nothing_moved(sights[l]);
    }
    if let Some(captured) = capture_of(attempt, sights) {
        let sight = sights[captured.retries];
        let walk = sight.walk->0;
        assert forall|j: int| 0 <= j < walk.journals.len() implies (
        #[trigger] captured.version.journals[j]).path == walk.journals[j].0 && (
        sight.reads[j] matches Some((_, bytes, _)) && captured.version.journals[j].bytes == bytes) by {
            assert(read_whole(sight.reads[j]));
        }
    }
}

} // verus!
