//! Laws of restore: it gives back exactly what the record and the bucket say, or nothing at all.

use vstd::prelude::*;
use vstd::string::*;
use crate::checksum::{digest_for, fnv1a, intact, law_one_changed_byte_is_detected};
use crate::compress::gunzip_stream;
use crate::layout::Layout;
use crate::object_store::Objects;
use crate::restore::{
    dir_actions, file_actions, is_whole, journal_actions, lock_file, pointer_actions,
    restore_actions, ActionView, RestoringView,
};
use crate::types::{Content, RecordView};

verus! {

/// What one action writes in the staging directory; `None` if it fails.
pub open spec fn effect(store: Objects, record: RecordView, action: ActionView) -> Option<
    Seq<Content>,
> {
    match action {
        ActionView::MakeDir(_) => Some(Seq::empty()),
        ActionView::FetchFile { key, path } => if store.contains_key(key) && intact(
            record.checksums,
            path,
            store[key],
        ) {
            Some(seq![Content { path, bytes: store[key] }])
        } else {
            None
        },
        ActionView::FetchJournal { key, path } => if store.contains_key(key) {
            match gunzip_stream(store[key]) {
                Some(bytes) => if intact(record.journal_checksums, path, bytes) {
                    Some(seq![Content { path, bytes }])
                } else {
                    None
                },
                None => None,
            }
        } else {
            None
        },
        ActionView::Write { path, bytes } => Some(seq![Content { path, bytes }]),
    }
}

/// What a list of actions writes in the staging directory, in order. The first that fails stops
/// the restore: it then leaves nothing.
pub open spec fn carried_out(
    store: Objects,
    record: RecordView,
    actions: Seq<ActionView>,
) -> Option<Seq<Content>>
    decreases actions.len(),
{
    if actions.len() == 0 {
        Some(Seq::empty())
    } else {
        match (
            carried_out(store, record, actions.drop_last()),
            effect(store, record, actions.last()),
        ) {
            (Some(before), Some(now)) => Some(before + now),
            _ => None,
        }
    }
}

/// The store holds the file, and its bytes are what the record says.
pub open spec fn file_is_good(
    layout: Layout,
    store: Objects,
    record: RecordView,
    id: Seq<char>,
) -> bool {
    let key = layout.file_key(id);
    store.contains_key(key) && intact(record.checksums, id, store[key])
}

/// The store holds the journal, it decompresses, and its bytes are what the record says.
pub open spec fn journal_is_good(
    layout: Layout,
    store: Objects,
    record: RecordView,
    name: Seq<char>,
) -> bool {
    let key = layout.journal_key(record.seqno, name);
    store.contains_key(key) && (gunzip_stream(store[key]) matches Some(bytes) && intact(
        record.journal_checksums,
        name,
        bytes,
    ))
}

/// Everything that the record references is in the store, and is what the record says.
pub open spec fn restorable(layout: Layout, store: Objects, record: RecordView) -> bool {
    &&& forall|i: int|
        0 <= i < record.file_ids.len() ==> file_is_good(
            layout,
            store,
            record,
            #[trigger] record.file_ids[i],
        )
    &&& forall|i: int|
        0 <= i < record.journals.len() ==> journal_is_good(
            layout,
            store,
            record,
            #[trigger] record.journals[i],
        )
}

/// The immutable files of a version.
pub open spec fn stored_files(layout: Layout, store: Objects, record: RecordView) -> Seq<Content> {
    Seq::new(
        record.file_ids.len(),
        |i: int|
            Content { path: record.file_ids[i], bytes: store[layout.file_key(record.file_ids[i])] },
    )
}

/// The journals of a version.
pub open spec fn stored_journals(layout: Layout, store: Objects, record: RecordView) -> Seq<
    Content,
> {
    Seq::new(
        record.journals.len(),
        |i: int|
            Content {
                path: record.journals[i],
                bytes: gunzip_stream(
                    store[layout.journal_key(record.seqno, record.journals[i])],
                )->0,
            },
    )
}

/// All files of a restored version.
pub open spec fn restored(layout: Layout, store: Objects, record: RecordView) -> Seq<Content> {
    (stored_files(layout, store, record) + stored_journals(layout, store, record)
        + record.pointers).push(lock_file())
}

proof fn lemma_carried_out_concat(
    store: Objects,
    record: RecordView,
    a: Seq<ActionView>,
    b: Seq<ActionView>,
)
    ensures
        carried_out(store, record, a + b) == (match (
            carried_out(store, record, a),
            carried_out(store, record, b),
        ) {
            (Some(x), Some(y)) => Some(x + y),
            _ => None,
        }),
    decreases b.len(),
{
    if b.len() == 0 {
        assert(a + b =~= a);
        if let Some(x) = carried_out(store, record, a) {
            assert(x + Seq::empty() =~= x);
        }
    } else {
        lemma_carried_out_concat(store, record, a, b.drop_last());
        assert((a + b).drop_last() =~= a + b.drop_last());
        match (
            carried_out(store, record, a),
            carried_out(store, record, b.drop_last()),
            effect(store, record, b.last()),
        ) {
            (Some(x), Some(y), Some(z)) => {
                assert((x + y) + z =~= x + (y + z));
            },
            _ => {},
        }
    }
}

/// A list of actions in which each writes the file given for it succeeds, and writes them all.
proof fn lemma_all_written(
    store: Objects,
    record: RecordView,
    actions: Seq<ActionView>,
    files: Seq<Content>,
)
    requires
        actions.len() == files.len(),
        forall|i: int|
            0 <= i < actions.len() ==> effect(store, record, #[trigger] actions[i]) == Some(
                seq![files[i]],
            ),
    ensures
        carried_out(store, record, actions) == Some(files),
    decreases actions.len(),
{
    if actions.len() > 0 {
        assert forall|i: int| 0 <= i < actions.len() - 1 implies effect(
            store,
            record,
            #[trigger] actions.drop_last()[i],
        ) == Some(seq![files.drop_last()[i]]) by {
            assert(actions.drop_last()[i] == actions[i]);
        }
        lemma_all_written(store, record, actions.drop_last(), files.drop_last());
        assert(files.drop_last() + seq![files.last()] =~= files);
    } else {
        assert(files =~= Seq::empty());
    }
}

/// A list of directories to make writes no file.
proof fn lemma_dirs_write_nothing(store: Objects, record: RecordView, actions: Seq<ActionView>)
    requires
        forall|i: int| 0 <= i < actions.len() ==> (#[trigger] actions[i]) is MakeDir,
    ensures
        carried_out(store, record, actions) == Some(Seq::<Content>::empty()),
    decreases actions.len(),
{
    if actions.len() > 0 {
        assert(actions.last() is MakeDir);
        lemma_dirs_write_nothing(store, record, actions.drop_last());
        assert(Seq::<Content>::empty() + Seq::<Content>::empty() =~= Seq::<Content>::empty());
    }
}

/// An action that fails makes the whole list fail.
proof fn lemma_failure_stops(
    store: Objects,
    record: RecordView,
    actions: Seq<ActionView>,
    i: int,
)
    requires
        0 <= i < actions.len(),
        effect(store, record, actions[i]) is None,
    ensures
        carried_out(store, record, actions) is None,
    decreases actions.len(),
{
    if i < actions.len() - 1 {
        lemma_failure_stops(store, record, actions.drop_last(), i);
    }
}

/// The actions of a restore, part by part.
proof fn lemma_parts(layout: Layout, store: Objects, record: RecordView)
    ensures
        carried_out(store, record, restore_actions(layout, record)) == (match (
            carried_out(store, record, file_actions(layout, record)),
            carried_out(store, record, journal_actions(layout, record)),
        ) {
            (Some(files), Some(journals)) => Some((files + journals + record.pointers).push(lock_file())),
            _ => None,
        }),
{
    let dirs = dir_actions(record);
    let files = file_actions(layout, record);
    let journals = journal_actions(layout, record);
    let pointers = pointer_actions(record);
    let lock = seq![ActionView::Write { path: "lock"@, bytes: Seq::empty() }];
    lemma_carried_out_concat(store, record, dirs, files);
    lemma_carried_out_concat(store, record, dirs + files, journals);
    lemma_carried_out_concat(store, record, dirs + files + journals, pointers);
    lemma_carried_out_concat(store, record, dirs + files + journals + pointers, lock);
    lemma_dirs_write_nothing(store, record, dirs);
    lemma_all_written(store, record, pointers, record.pointers);
    lemma_all_written(store, record, lock, seq![lock_file()]);
    match (carried_out(store, record, files), carried_out(store, record, journals)) {
        (Some(f), Some(j)) => {
            assert(Seq::<Content>::empty() + f =~= f);
            assert(f + j + record.pointers + seq![lock_file()] =~= (f + j + record.pointers).push(
                lock_file(),
            ));
        },
        _ => {},
    }
}

/// A restore is all or nothing. It succeeds exactly if everything that the record references is in
/// the store and is what the record says; then it lands the files, the journals, the pointer files
/// and an empty lock, and no other file.
pub proof fn law_restore_is_exact(layout: Layout, store: Objects, record: RecordView)
    ensures
        carried_out(store, record, restore_actions(layout, record)) == if restorable(
            layout,
            store,
            record,
        ) {
            Some(restored(layout, store, record))
        } else {
            None
        },
{
    let files = file_actions(layout, record);
    let journals = journal_actions(layout, record);
    lemma_parts(layout, store, record);
    if restorable(layout, store, record) {
        let f = stored_files(layout, store, record);
        assert forall|i: int| 0 <= i < files.len() implies effect(
            store,
            record,
            #[trigger] files[i],
        ) == Some(seq![f[i]]) by {
            assert(file_is_good(layout, store, record, record.file_ids[i]));
        }
        lemma_all_written(store, record, files, f);
        let g = stored_journals(layout, store, record);
        assert forall|i: int| 0 <= i < journals.len() implies effect(
            store,
            record,
            #[trigger] journals[i],
        ) == Some(seq![g[i]]) by {
            assert(journal_is_good(layout, store, record, record.journals[i]));
        }
        lemma_all_written(store, record, journals, g);
    } else if exists|i: int|
        0 <= i < record.file_ids.len() && !file_is_good(
            layout,
            store,
            record,
            #[trigger] record.file_ids[i],
        ) {
        let i = choose|i: int|
            0 <= i < record.file_ids.len() && !file_is_good(
                layout,
                store,
                record,
                #[trigger] record.file_ids[i],
            );
        lemma_failure_stops(store, record, files, i);
    } else {
        let i = choose|i: int|
            0 <= i < record.journals.len() && !journal_is_good(
                layout,
                store,
                record,
                #[trigger] record.journals[i],
            );
        lemma_failure_stops(store, record, journals, i);
    }
}

/// A referenced file or journal that is missing from the bucket fails loudly: the restore produces
/// no database, not a partial one.
pub proof fn law_a_missing_object_fails_loudly(
    layout: Layout,
    store: Objects,
    record: RecordView,
    i: int,
)
    ensures
        0 <= i < record.file_ids.len() && !store.contains_key(layout.file_key(record.file_ids[i]))
            ==> carried_out(store, record, restore_actions(layout, record)) is None,
        0 <= i < record.journals.len() && !store.contains_key(
            layout.journal_key(record.seqno, record.journals[i]),
        ) ==> carried_out(store, record, restore_actions(layout, record)) is None,
{
    law_restore_is_exact(layout, store, record);
    if 0 <= i < record.file_ids.len() && !store.contains_key(
        layout.file_key(record.file_ids[i]),
    ) {
        assert(!file_is_good(layout, store, record, record.file_ids[i]));
    }
    if 0 <= i < record.journals.len() && !store.contains_key(
        layout.journal_key(record.seqno, record.journals[i]),
    ) {
        assert(!journal_is_good(layout, store, record, record.journals[i]));
    }
}

/// A file whose hash is on record and of which one byte was changed in the bucket is refused.
pub proof fn law_a_corrupted_file_is_refused(
    layout: Layout,
    store: Objects,
    record: RecordView,
    i: int,
    good: Seq<u8>,
    at: int,
    b: u8,
)
    requires
        0 <= i < record.file_ids.len(),
        digest_for(record.checksums, record.file_ids[i]) == Some(fnv1a(good)),
        0 <= at < good.len(),
        good[at] != b,
        store.contains_key(layout.file_key(record.file_ids[i])),
        store[layout.file_key(record.file_ids[i])] == good.update(at, b),
    ensures
        carried_out(store, record, restore_actions(layout, record)) is None,
{
    law_one_changed_byte_is_detected(good, at, b);
    law_restore_is_exact(layout, store, record);
    assert(!file_is_good(layout, store, record, record.file_ids[i]));
}

/// Where a restore stands after the next step, when objects are fetched from a store; `None` if the
/// step fails.
pub open spec fn fed(store: Objects, view: RestoringView) -> Option<RestoringView> {
    match view.action() {
        ActionView::MakeDir(_) => Some(view.made()),
        ActionView::FetchFile { key, .. } => if store.contains_key(key) {
            match view.file_from(store[key]) {
                Some(file) => Some(view.with(file)),
                None => None,
            }
        } else {
            None
        },
        ActionView::FetchJournal { key, .. } => if store.contains_key(key) {
            match view.journal_from(store[key]) {
                Some(file) => Some(view.with(file)),
                None => None,
            }
        } else {
            None
        },
        ActionView::Write { path, bytes } => Some(view.with(Content { path, bytes })),
    }
}

/// Where the restore of a version stands after `n` steps, when objects are fetched from a store;
/// `None` if a step failed.
pub open spec fn restoring(layout: Layout, store: Objects, record: RecordView, n: nat) -> Option<
    RestoringView,
>
    decreases n,
{
    if n == 0 {
        Some(RestoringView::begun(layout, record))
    } else {
        match restoring(layout, store, record, (n - 1) as nat) {
            Some(view) => fed(store, view),
            None => None,
        }
    }
}

/// The steps of a restore carry out its actions, in order.
proof fn lemma_steps_carry_out(layout: Layout, store: Objects, record: RecordView, n: nat)
    requires
        n <= restore_actions(layout, record).len(),
    ensures
        restoring(layout, store, record, n) == (match carried_out(
            store,
            record,
            restore_actions(layout, record).take(n as int),
        ) {
            Some(landed) => Some(RestoringView { layout, record, done: n as int, landed }),
            None => None,
        }),
    decreases n,
{
    let actions = restore_actions(layout, record);
    if n > 0 {
        lemma_steps_carry_out(layout, store, record, (n - 1) as nat);
        assert(actions.take(n as int).drop_last() =~= actions.take(n - 1));
        assert(actions.take(n as int).last() == actions[n - 1]);
        match (
            carried_out(store, record, actions.take(n - 1)),
            effect(store, record, actions[n - 1]),
        ) {
            (Some(landed), Some(now)) => {
                if now.len() == 0 {
                    assert(landed + now =~= landed);
                } else {
                    assert(landed + now =~= landed.push(now[0]));
                }
            },
            _ => {},
        }
    }
}

/// The steps of a restore lead to the swap exactly if everything that the record references is in
/// the store and is what the record says. What landed by then is the restored version, and it is
/// whole.
pub proof fn law_the_steps_restore(layout: Layout, store: Objects, record: RecordView)
    ensures
        ({
            let end = restoring(
                layout,
                store,
                record,
                restore_actions(layout, record).len(),
            );
            if restorable(layout, store, record) {
                end matches Some(view) && view.landed == restored(layout, store, record) && is_whole(
                    record,
                    view.landed,
                )
            } else {
                end is None
            }
        }),
{
    let actions = restore_actions(layout, record);
    lemma_steps_carry_out(layout, store, record, actions.len());
    assert(actions.take(actions.len() as int) =~= actions);
    law_restore_is_exact(layout, store, record);
    if restorable(layout, store, record) {
        let landed = restored(layout, store, record);
        let files = record.file_ids.len() as int;
        let journals = record.journals.len() as int;
        let pointers = record.pointers.len() as int;
        assert forall|i: int| 0 <= i < files implies (#[trigger] landed[i]).path
            == record.file_ids[i] && intact(record.checksums, landed[i].path, landed[i].bytes) by {
            assert(file_is_good(layout, store, record, record.file_ids[i]));
        }
        assert forall|i: int| files <= i < files + journals implies (#[trigger] landed[i]).path
            == record.journals[i - files] && intact(
            record.journal_checksums,
            landed[i].path,
            landed[i].bytes,
        ) by {
            assert(journal_is_good(layout, store, record, record.journals[i - files]));
        }
        assert(landed.subrange(files + journals, files + journals + pointers) =~= record.pointers);
    }
}

/// A file at this path landed, and its hash is the one on record, if one is.
pub open spec fn landed_well(
    landed: Seq<Content>,
    path: Seq<char>,
    on_record: Option<u64>,
) -> bool {
    exists|k: int|
        0 <= k < landed.len() && (#[trigger] landed[k]).path == path && (on_record matches Some(hash)
            ==> hash == fnv1a(landed[k].bytes))
}

/// A whole version lacks nothing: every file and every journal that the record names landed, with the
/// content hash that the record gives, every pointer with its bytes, and an empty file named `lock`.
pub proof fn law_a_whole_version_lacks_nothing(record: RecordView, landed: Seq<Content>, i: int)
    requires
        is_whole(record, landed),
    ensures
        0 <= i < record.file_ids.len() ==> landed_well(
            landed,
            record.file_ids[i],
            digest_for(record.checksums, record.file_ids[i]),
        ),
        0 <= i < record.journals.len() ==> landed_well(
            landed,
            record.journals[i],
            digest_for(record.journal_checksums, record.journals[i]),
        ),
        0 <= i < record.pointers.len() ==> landed.contains(record.pointers[i]),
        landed.contains(Content { path: "lock"@, bytes: Seq::empty() }),
{
    let files = record.file_ids.len() as int;
    let journals = record.journals.len() as int;
    let pointers = record.pointers.len() as int;
    if 0 <= i < files {
        assert(landed[i].path == record.file_ids[i]);
    }
    if 0 <= i < journals {
        assert(landed[files + i].path == record.journals[i]);
    }
    if 0 <= i < pointers {
        let part = landed.subrange(files + journals, files + journals + pointers);
        assert(part[i] == landed[files + journals + i]);
    }
    assert(landed[landed.len() - 1] == landed.last());
}

} // verus!
