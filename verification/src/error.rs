//! The error kinds an operation of this crate can report.

use vstd::prelude::*;

verus! {

/// Why an operation failed.
///
/// `InvalidHive` is local to address resolution: the first segment of an
/// address matched none of the five recognized root hives or their aliases.
/// `UnknownTag` reports a native type tag outside the closed set of twelve
/// value kinds; such a tag is a compatibility fault and is never silently
/// coerced to a recognized kind. `StoreError` reports a failure of the store
/// itself, such as deleting a key that does not exist.
#[derive(Debug, PartialEq, Eq)]
pub enum RegError {
    InvalidHive { token: String },
    UnknownTag { tag: u32 },
    StoreError { reason: String },
}

} // verus!
