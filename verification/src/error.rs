//! The error kinds an encode or decode operation can report.

use vstd::prelude::*;

verus! {

/// The ways an encode or decode operation can fail.
///
/// Every error is terminal for the operation in progress: it propagates
/// unchanged through every nesting level back to the top-level caller.
#[derive(Clone, Copy, Debug, PartialEq, Eq, Structural)]
pub enum Error {
    /// The source was exhausted before a requested read completed.
    TruncatedInput,
    /// A tag byte for an optional or fallible value was outside `{0, 1}`.
    InvalidDiscriminant,
    /// A string payload was not valid UTF-8.
    InvalidUtf8,
    /// A writable sink refused a write. The in-memory sink never fails,
    /// so its operations never report this.
    SinkFailure,
}

} // verus!
