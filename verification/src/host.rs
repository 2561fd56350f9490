//! Types of the standard library that are carried through: paths on the local disk, spans of
//! time.

use vstd::prelude::*;
use std::path::PathBuf;
use std::time::Duration;

verus! {

/// A path on the local disk, carried through unread.
#[verifier::external_type_specification]
#[verifier::external_body]
pub struct ExPathBuf(std::path::PathBuf);

/// The span of a whole number of seconds.
pub uninterp spec fn whole_seconds(secs: u64) -> Duration;

/// `Duration::from_secs` makes the span of that many seconds.
pub assume_specification[ Duration::from_secs ](secs: u64) -> (d: Duration)
    ensures
        d == whole_seconds(secs),
;

/// `Duration::clone` copies the span.
pub assume_specification[ <Duration as Clone>::clone ](d: &Duration) -> (r: Duration)
    ensures
        r == *d,
;

/// `PathBuf::clone` copies the path.
pub assume_specification[ <PathBuf as Clone>::clone ](p: &PathBuf) -> (r: PathBuf)
    ensures
        r == *p,
;

} // verus!
