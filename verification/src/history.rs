//! What it means that a bucket holds a sound version history.

use vstd::prelude::*;
use crate::layout::Layout;
use crate::object_store::Objects;
use crate::types::RecordView;

verus! {

/// How version records are read from objects. An object that is no version record gives `None`.
pub type Decode = spec_fn(Seq<u8>) -> Option<RecordView>;

/// How version records are written as objects.
pub type Encode = spec_fn(RecordView) -> Seq<u8>;

/// Reading gives back what was written.
pub open spec fn lossless(encode: Encode, decode: Decode) -> bool {
    forall|record: RecordView| decode(#[trigger] encode(record)) == Some(record)
}

/// The store holds everything that the record references.
pub open spec fn complete(layout: Layout, store: Objects, record: RecordView) -> bool {
    &&& forall|i: int|
        0 <= i < record.file_ids.len() ==> store.contains_key(
            layout.file_key(#[trigger] record.file_ids[i]),
        )
    &&& forall|i: int|
        0 <= i < record.journals.len() ==> store.contains_key(
            layout.journal_key(record.seqno, #[trigger] record.journals[i]),
        )
}

/// The record of the version with this sequence number, if the store holds one.
pub open spec fn recorded(
    layout: Layout,
    store: Objects,
    decode: Decode,
    seqno: u64,
) -> Option<RecordView> {
    if store.contains_key(layout.version_key(seqno)) {
        decode(store[layout.version_key(seqno)])
    } else {
        None
    }
}

/// The version record with this sequence number, if there is one, does not dangle: it names its own
/// sequence number, and everything that it references is there.
pub open spec fn sound_at(layout: Layout, store: Objects, decode: Decode, seqno: u64) -> bool {
    recorded(layout, store, decode, seqno) matches Some(record) ==> record.seqno == seqno
        && complete(layout, store, record)
}

/// No version record dangles.
pub open spec fn sound(layout: Layout, store: Objects, decode: Decode) -> bool {
    forall|seqno: u64| #[trigger] sound_at(layout, store, decode, seqno)
}

/// The store without these keys.
pub open spec fn without(store: Objects, keys: Seq<Seq<char>>) -> Objects {
    store.remove_keys(keys.to_set())
}

} // verus!
