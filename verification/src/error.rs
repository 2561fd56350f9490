//! What can go wrong.

use vstd::prelude::*;

verus! {

/// An I/O failure, as `std::io` reports it.
#[verifier::external_type_specification]
#[verifier::external_body]
pub struct ExIoError(std::io::Error);

/// The errors of this library.
#[derive(Debug)]
pub enum Error {
    /// The object store refused, or a request to it makes no sense.
    Store(String),
    /// The object is not in the store.
    NotFound(String),
    /// An I/O failure at a path.
    Io { path: String, source: std::io::Error },
    /// A version record could not be written as or read from JSON.
    Codec(String),
    /// fjall failed.
    Fjall(String),
    /// The requested cursor has aged out of the retention window; the reader must
    /// re-bootstrap from a full snapshot.
    OutsideRetention(u64),
    /// A downloaded file does not hash to what its version record says.
    ChecksumMismatch(String),
}

} // verus!
