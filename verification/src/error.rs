//! Why the table may decline an operation.

use vstd::prelude::*;

verus! {

/// The reasons for which an insertion is refused. A lookup or a removal of a
/// key that is not there is no error: it reports the key as absent.
#[derive(Clone, Copy, Debug, PartialEq, Eq, Structural)]
pub enum HashMapError {
    /// The table cannot get the storage it would need.
    OutOfMemory,
    /// The key holds what the table's key encoding cannot tell apart.
    InvalidKey,
}

} // verus!
