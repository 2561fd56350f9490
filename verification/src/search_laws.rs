//! Laws of the search for a version: it finds the newest one at or before the target.

use vstd::prelude::*;
use crate::history::{recorded, sound, sound_at, Decode};
use crate::layout::{version_key_seqno, Layout};
use crate::layout_laws::law_version_keys_sort_numerically;
use crate::object_store::Objects;
use crate::restore::{admitted, ResolutionView, SearchView};
use crate::types::{RecordView, RestoreTarget};

verus! {

/// The record under each key.
pub type Records = spec_fn(Seq<char>) -> RecordView;

/// The index of the key at which a search ends: each record that is not admitted leads to the
/// next older one. `None` if there is no older one.
pub open spec fn search_ends_at(search: SearchView, records: Records) -> Option<int>
    decreases search.left,
{
    if search.left <= 0 {
        None
    } else {
        match search.answered(records(search.keys[search.left - 1])) {
            ResolutionView::Found => Some(search.left - 1),
            ResolutionView::Continue(next) => if next.left < search.left {
                search_ends_at(next, records)
            } else {
                None
            },
            ResolutionView::NotFound => None,
        }
    }
}

/// The search ends at the last key, in order, whose record is admitted, and finds none only where
/// no record is admitted.
pub proof fn law_search_finds_the_last_admitted(search: SearchView, records: Records)
    requires
        search.left <= search.keys.len(),
    ensures
        match search_ends_at(search, records) {
            Some(i) => {
                &&& 0 <= i < search.left
                &&& admitted(search.target, records(search.keys[i]))
                &&& forall|j: int|
                    i < j < search.left ==> !admitted(
                        search.target,
                        records(#[trigger] search.keys[j]),
                    )
            },
            None => forall|j: int|
                0 <= j < search.left ==> !admitted(
                    search.target,
                    records(#[trigger] search.keys[j]),
                ),
        },
    decreases search.left,
{
    if search.left > 0 && !admitted(search.target, records(search.keys[search.left - 1])) {
        law_search_finds_the_last_admitted(
            SearchView { left: search.left - 1, ..search },
            records,
        );
    }
}

/// The keys are those of version records, and each record names the sequence number of its key.
pub open spec fn lists_versions(layout: Layout, keys: Seq<Seq<char>>, records: Records) -> bool {
    forall|i: int|
        0 <= i < keys.len() ==> #[trigger] keys[i] == layout.version_key(records(keys[i]).seqno)
}

/// Restoring to a point in time picks the newest version at or before it: the version that is
/// found is admitted by the target, and no admitted version has a higher sequence number. Where
/// none is found, none is admitted; the latest version is always found.
pub proof fn law_the_newest_version_is_found(layout: Layout, search: SearchView, records: Records)
    requires
        search.left == search.keys.len(),
        crate::order::sorted_texts(search.keys),
        lists_versions(layout, search.keys, records),
    ensures
        match search_ends_at(search, records) {
            Some(i) => {
                let found = records(search.keys[i]);
                &&& 0 <= i < search.keys.len()
                &&& admitted(search.target, found)
                &&& forall|j: int|
                    0 <= j < search.keys.len() && admitted(
                        search.target,
                        records(#[trigger] search.keys[j]),
                    ) ==> records(search.keys[j]).seqno <= found.seqno
            },
            None => {
                &&& forall|j: int|
                    0 <= j < search.keys.len() ==> !admitted(
                        search.target,
                        records(#[trigger] search.keys[j]),
                    )
                &&& search.target is Latest ==> search.keys.len() == 0
            },
        },
{
    law_search_finds_the_last_admitted(search, records);
    if let Some(i) = search_ends_at(search, records) {
        let found = records(search.keys[i]);
        assert forall|j: int|
            0 <= j < search.keys.len() && admitted(
                search.target,
                records(#[trigger] search.keys[j]),
            ) implies records(search.keys[j]).seqno <= found.seqno by {
            let other = records(search.keys[j]);
            assert(search.keys[i] == layout.version_key(found.seqno));
            assert(search.keys[j] == layout.version_key(other.seqno));
            law_version_keys_sort_numerically(layout, found.seqno, other.seqno);
        }
    } else if search.target is Latest && search.keys.len() > 0 {
        assert(!admitted(search.target, records(search.keys[0])));
    }
}

/// The record that the bucket holds under each key.
pub open spec fn records_in(store: Objects, decode: Decode) -> Records {
    |key: Seq<char>| decode(store[key])->0
}

/// The key is that of a version record, and the bucket holds it.
pub open spec fn is_on_record(
    layout: Layout,
    store: Objects,
    decode: Decode,
    key: Seq<char>,
) -> bool {
    version_key_seqno(key) matches Some(seqno) && key == layout.version_key(seqno) && recorded(
        layout,
        store,
        decode,
        seqno,
    ) is Some
}

/// The keys are those of version records that the bucket holds.
pub open spec fn are_on_record(
    layout: Layout,
    store: Objects,
    decode: Decode,
    keys: Seq<Seq<char>>,
) -> bool {
    forall|i: int| 0 <= i < keys.len() ==> is_on_record(layout, store, decode, #[trigger] keys[i])
}

/// Every version on record is found by its sequence number: in a sound bucket, the search for it
/// among the listed keys ends at its record.
pub proof fn law_a_version_is_found_by_its_seqno(
    layout: Layout,
    store: Objects,
    decode: Decode,
    keys: Seq<Seq<char>>,
    seqno: u64,
)
    requires
        sound(layout, store, decode),
        crate::order::sorted_texts(keys),
        are_on_record(layout, store, decode, keys),
        keys.contains(layout.version_key(seqno)),
        recorded(layout, store, decode, seqno) is Some,
    ensures
        ({
            let search = SearchView {
                keys,
                target: RestoreTarget::Seqno(seqno),
                left: keys.len() as int,
            };
            let records = records_in(store, decode);
            search_ends_at(search, records) matches Some(i) && 0 <= i < keys.len() && Some(
                records(keys[i]),
            ) == recorded(layout, store, decode, seqno)
        }),
{
    let search = SearchView { keys, target: RestoreTarget::Seqno(seqno), left: keys.len() as int };
    let records = records_in(store, decode);
    assert forall|i: int| 0 <= i < keys.len() implies #[trigger] keys[i] == layout.version_key(
        records(keys[i]).seqno,
    ) by {
        assert(is_on_record(layout, store, decode, keys[i]));
        assert(sound_at(layout, store, decode, version_key_seqno(keys[i])->0));
    }
    assert(sound_at(layout, store, decode, seqno));
    law_the_newest_version_is_found(layout, search, records);
    let k = keys.index_of(layout.version_key(seqno));
    assert(records(keys[k]).seqno == seqno);
    assert(admitted(search.target, records(keys[k])));
    if let Some(i) = search_ends_at(search, records) {
        assert(records(keys[i]).seqno == seqno);
    }
}

/// A restore at or before a sequence number never gives back a version past it.
pub proof fn law_nothing_past_the_target(search: SearchView, records: Records, want: u64)
    requires
        search.left <= search.keys.len(),
    ensures
        search_ends_at(search, records) matches Some(i) ==> {
            &&& search.target == RestoreTarget::Seqno(want) ==> records(search.keys[i]).seqno
                <= want
            &&& search.target == RestoreTarget::TimestampMillis(want) ==> records(
                search.keys[i],
            ).ts_millis <= want
        },
{
    law_search_finds_the_last_admitted(search, records);
}

/// A search finds the newest version at or before its target, by the numbers on record, whatever
/// else a record says. For a sequence number: no later one than wanted, and none between. For a time:
/// no later time than wanted, and of all such versions the one with the highest sequence number. For
/// the latest: the highest sequence number of all. It finds none only where every listed version is
/// past the target.
pub proof fn law_the_newest_at_or_before_is_found(
    layout: Layout,
    keys: Seq<Seq<char>>,
    target: RestoreTarget,
    records: Records,
)
    requires
        crate::order::sorted_texts(keys),
        lists_versions(layout, keys, records),
    ensures
        match search_ends_at(SearchView { keys, target, left: keys.len() as int }, records) {
            Some(i) => {
                let found = records(keys[i]);
                &&& 0 <= i < keys.len()
                &&& match target {
                    RestoreTarget::Latest => forall|j: int|
                        0 <= j < keys.len() ==> records(#[trigger] keys[j]).seqno <= found.seqno,
                    RestoreTarget::Seqno(want) => {
                        &&& found.seqno <= want
                        &&& forall|j: int|
                            0 <= j < keys.len() && records(#[trigger] keys[j]).seqno <= want
                                ==> records(keys[j]).seqno <= found.seqno
                    },
                    RestoreTarget::TimestampMillis(want) => {
                        &&& found.ts_millis <= want
                        &&& forall|j: int|
                            0 <= j < keys.len() && records(#[trigger] keys[j]).ts_millis <= want
                                ==> records(keys[j]).seqno <= found.seqno
                    },
                }
            },
            None => match target {
                RestoreTarget::Latest => keys.len() == 0,
                RestoreTarget::Seqno(want) => forall|j: int|
                    0 <= j < keys.len() ==> records(#[trigger] keys[j]).seqno > want,
                RestoreTarget::TimestampMillis(want) => forall|j: int|
                    0 <= j < keys.len() ==> records(#[trigger] keys[j]).ts_millis > want,
            },
        },
{
    let search = SearchView { keys, target, left: keys.len() as int };
    law_the_newest_version_is_found(layout, search, records);
    if let Some(i) = search_ends_at(search, records) {
        let found = records(keys[i]);
        assert forall|j: int| 0 <= j < keys.len() && match target {
            RestoreTarget::Latest => true,
            RestoreTarget::Seqno(want) => records(keys[j]).seqno <= want,
            RestoreTarget::TimestampMillis(want) => records(keys[j]).ts_millis <= want,
        } implies records(#[trigger] keys[j]).seqno <= found.seqno by {
            assert(admitted(target, records(search.keys[j])));
        }
    } else {
        assert forall|j: int| 0 <= j < keys.len() implies !admitted(
            target,
            records(#[trigger] keys[j]),
        ) by {
            assert(keys[j] == search.keys[j]);
        }
    }
}

/// A target looks at nothing of a record but the number that it names: of two versions with the same
/// one it admits both or neither. A version is admitted by its own number, and by every later one.
pub proof fn law_a_later_target_admits_no_less(
    record: RecordView,
    other: RecordView,
    want: u64,
    later: u64,
)
    requires
        want <= later,
    ensures
        record.seqno == other.seqno ==> admitted(RestoreTarget::Seqno(want), record) == admitted(
            RestoreTarget::Seqno(want),
            other,
        ),
        record.ts_millis == other.ts_millis ==> admitted(
            RestoreTarget::TimestampMillis(want),
            record,
        ) == admitted(RestoreTarget::TimestampMillis(want), other),
        admitted(RestoreTarget::Seqno(want), record) ==> admitted(
            RestoreTarget::Seqno(later),
            record,
        ),
        admitted(RestoreTarget::TimestampMillis(want), record) ==> admitted(
            RestoreTarget::TimestampMillis(later),
            record,
        ),
        admitted(RestoreTarget::Seqno(record.seqno), record),
        admitted(RestoreTarget::TimestampMillis(record.ts_millis), record),
        admitted(RestoreTarget::Latest, record),
{
}

} // verus!
