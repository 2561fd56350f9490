//! A stable content hash for integrity. A version record holds one for every file and journal that
//! it names, and it is verified on restore, so bucket corruption is caught loudly *before* fjall
//! ever opens the database.
//!
//! FNV-1a (64-bit): tiny, dependency-free, and stable across Rust versions, which matters because
//! these hashes are written to durable storage and read back later. It guards against accidental
//! corruption, not against an adversary.

use vstd::prelude::*;
use vstd::string::*;
use crate::error::Error;
use crate::text::same_text;
use crate::types::{digests, Digest, FileChecksum};

verus! {

/// The hash of no bytes.
pub const OFFSET_BASIS: u64 = 0xcbf2_9ce4_8422_2325;

/// The factor by which each byte spreads over the hash.
pub const PRIME: u64 = 0x0000_0100_0000_01b3;

/// One byte taken into the hash: exclusive or, then a product modulo two to the power of 64.
pub open spec fn absorb(h: u64, b: u8) -> u64 {
    (((h ^ (b as u64)) as int * PRIME as int) % 0x1_0000_0000_0000_0000) as u64
}

/// The FNV-1a hash of a byte sequence.
pub open spec fn fnv1a(bytes: Seq<u8>) -> u64 {
    bytes.fold_left(OFFSET_BASIS, |h: u64, b: u8| absorb(h, b))
}

/// The 64-bit FNV-1a hash of `bytes`.
pub fn hash64(bytes: &[u8]) -> (r: u64)
    ensures
        r == fnv1a(bytes@),
{
    let mut h: u64 = OFFSET_BASIS;
    let mut i: usize = 0;
    let ghost f = |h: u64, b: u8| absorb(h, b);
    while i < bytes.len()
        invariant
            i <= bytes.len(),
            f == (|h: u64, b: u8| absorb(h, b)),
            h == bytes@.take(i as int).fold_left(OFFSET_BASIS, f),
        decreases bytes.len() - i,
    {
        let b: u8 = bytes[i];
        h = (h ^ (b as u64)).wrapping_mul(PRIME);
        assert(bytes@.take(i + 1).drop_last() =~= bytes@.take(i as int));
        i += 1;
    }
    assert(bytes@.take(bytes@.len() as int) =~= bytes@);
    h
}

/// The factor is odd, so a product with it modulo two to the power of 64 can be undone.
proof fn lemma_product_is_injective(x: u64, y: u64)
    requires
        (x * PRIME) % 0x1_0000_0000_0000_0000 == (y * PRIME) % 0x1_0000_0000_0000_0000,
    ensures
        x == y,
{
    let m: int = 0x1_0000_0000_0000_0000;
    let j: int = (x * PRIME) / m;
    let k: int = (y * PRIME) / m;
    assert(x * PRIME == j * m + (x * PRIME) % m);
    assert(y * PRIME == k * m + (y * PRIME) % m);
    // 0xce96_5057_aff6_957b is the inverse of the factor.
    assert(0x0000_0100_0000_01b3 * 0xce96_5057_aff6_957b == 1 + 887285111055int * m);
    let t: int = (j - k) * 0xce96_5057_aff6_957b - 887285111055int * (x - y);
    assert(x - y == m * t);
}

/// What a byte does to the hash can be undone, given the byte; and two bytes never do the same.
proof fn lemma_absorb_is_injective(h: u64, g: u64, b: u8, c: u8)
    ensures
        absorb(h, b) == absorb(g, b) ==> h == g,
        absorb(h, b) == absorb(h, c) ==> b == c,
{
    let x: u64 = h ^ (b as u64);
    let y: u64 = g ^ (b as u64);
    let z: u64 = h ^ (c as u64);
    if absorb(h, b) == absorb(g, b) {
        lemma_product_is_injective(x, y);
        assert(h == g) by (bit_vector)
            requires
                h ^ (b as u64) == g ^ (b as u64),
        ;
    }
    if absorb(h, b) == absorb(h, c) {
        lemma_product_is_injective(x, z);
        assert(b == c) by (bit_vector)
            requires
                h ^ (b as u64) == h ^ (c as u64),
        ;
    }
}

/// A change of one byte, wherever it is, always changes the hash.
pub proof fn law_one_changed_byte_is_detected(bytes: Seq<u8>, i: int, b: u8)
    requires
        0 <= i < bytes.len(),
        bytes[i] != b,
    ensures
        fnv1a(bytes.update(i, b)) != fnv1a(bytes),
    decreases bytes.len(),
{
    let f = |h: u64, b: u8| absorb(h, b);
    let changed = bytes.update(i, b);
    let head = bytes.drop_last();
    let h = head.fold_left(OFFSET_BASIS, f);
    let g = changed.drop_last().fold_left(OFFSET_BASIS, f);
    if i == bytes.len() - 1 {
        assert(changed.drop_last() =~= head);
        lemma_absorb_is_injective(h, g, bytes.last(), b);
    } else {
        assert(changed.drop_last() =~= head.update(i, b));
        law_one_changed_byte_is_detected(head, i, b);
        lemma_absorb_is_injective(h, g, bytes.last(), bytes.last());
    }
}

/// The hash that a list of digests gives for a path: that of the last entry for it.
pub open spec fn digest_for(list: Seq<Digest>, path: Seq<char>) -> Option<u64>
    decreases list.len(),
{
    if list.len() == 0 {
        None
    } else if list.last().path == path {
        Some(list.last().hash)
    } else {
        digest_for(list.drop_last(), path)
    }
}

/// The hash that a list of checksums gives for a path: that of the last entry for it.
pub fn checksum_for(list: &Vec<FileChecksum>, path: &str) -> (r: Option<u64>)
    ensures
        r == digest_for(digests(list@), path@),
{
    let mut n: usize = list.len();
    assert(digests(list@).take(n as int) =~= digests(list@));
    while n > 0
        invariant
            n <= list.len(),
            digest_for(digests(list@), path@) == digest_for(digests(list@).take(n as int), path@),
        decreases n,
    {
        assert(digests(list@).take(n as int).drop_last() =~= digests(list@).take(n - 1));
        if same_text(list[n - 1].path.as_str(), path) {
            return Some(list[n - 1].hash);
        }
        n -= 1;
    }
    None
}

/// In two lists after one another, an entry of the second comes before one of the first.
pub proof fn lemma_digest_for_concat(a: Seq<Digest>, b: Seq<Digest>, path: Seq<char>)
    ensures
        digest_for(a + b, path) == (match digest_for(b, path) {
            Some(hash) => Some(hash),
            None => digest_for(a, path),
        }),
    decreases b.len(),
{
    if b.len() == 0 {
        assert(a + b =~= a);
    } else {
        assert((a + b).drop_last() =~= a + b.drop_last());
        lemma_digest_for_concat(a, b.drop_last(), path);
    }
}

/// Whether `bytes` are what a list of digests says belongs at `path`. Of a path that it does not
/// name, the list says nothing; a record written by [`crate::upload`] names every path.
pub open spec fn intact(list: Seq<Digest>, path: Seq<char>, bytes: Seq<u8>) -> bool {
    digest_for(list, path) matches Some(hash) ==> hash == fnv1a(bytes)
}

/// `bytes`, if they hash to what `list` says of `path`.
pub fn verified(list: &Vec<FileChecksum>, path: &str, bytes: Vec<u8>) -> (r: Result<Vec<u8>, Error>)
    ensures
        match r {
            Ok(b) => intact(digests(list@), path@, bytes@) && b@ == bytes@,
            Err(e) => !intact(digests(list@), path@, bytes@) && (e matches Error::ChecksumMismatch(p)
                && p@ == path@),
        },
{
    match checksum_for(list, path) {
        Some(hash) => if hash64(bytes.as_slice()) == hash {
            Ok(bytes)
        } else {
            Err(Error::ChecksumMismatch(path.to_owned()))
        },
        None => Ok(bytes),
    }
}

/// The hash is 64-bit FNV-1a: that of no bytes is the offset basis, and one more byte is taken in by
/// an exclusive or and a product with the FNV prime.
pub proof fn law_the_hash_is_fnv1a(bytes: Seq<u8>, b: u8)
    ensures
        fnv1a(Seq::empty()) == 0xcbf2_9ce4_8422_2325u64,
        fnv1a(bytes.push(b)) as int == ((fnv1a(bytes) ^ (b as u64)) as int * 0x0000_0100_0000_01b3)
            % 0x1_0000_0000_0000_0000,
{
    assert(bytes.push(b).drop_last() =~= bytes);
}

/// Of the entries for a path, the last one counts; an entry says nothing of another path. Bytes are
/// intact exactly if they have the hash that counts, or if there is none.
pub proof fn law_the_last_entry_counts(
    list: Seq<Digest>,
    entry: Digest,
    path: Seq<char>,
    bytes: Seq<u8>,
)
    ensures
        digest_for(list.push(entry), entry.path) == Some(entry.hash),
        path != entry.path ==> digest_for(list.push(entry), path) == digest_for(list, path),
        digest_for(Seq::empty(), path) is None,
        intact(list.push(entry), entry.path, bytes) <==> entry.hash == fnv1a(bytes),
        path != entry.path ==> intact(list.push(entry), path, bytes) == intact(list, path, bytes),
        intact(Seq::empty(), path, bytes),
{
    assert(list.push(entry).drop_last() =~= list);
}

} // verus!
