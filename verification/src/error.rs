//! Error kinds surfaced by the storage engine.

use vstd::prelude::*;

verus! {

/// What can go wrong in the storage engine.
///
/// `Io` stands for an underlying read/write/flush failure reported by the
/// unverified plumbing around the core. `EntryTooLarge` is returned when a
/// WAL entry's encoded size exceeds the fixed maximum. `Corruption` marks a
/// malformed WAL record, an unknown tag, a truncated record or a malformed
/// SSTable footer. `NotFound` is used internally during lookup chains;
/// absence is surfaced to callers as a normal `None`, not as an error.
#[derive(Clone, Copy, PartialEq, Eq, Structural, Debug)]
pub enum Error {
    Io,
    EntryTooLarge,
    Corruption,
    NotFound,
}

} // verus!
