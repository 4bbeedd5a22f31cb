use vstd::prelude::*;

verus! {

/// What can go wrong inside the store.
#[derive(Clone, Copy, Debug, PartialEq, Eq, Structural)]
pub enum CrdtError {
    /// The peer lacks the permission the operation takes.
    Unauthorized,
    /// A path cannot be framed: a payload is over the 16-bit length field.
    InvalidPath,
    /// The embedded key-value store failed; the replica may be divergent.
    StorageFailure,
    /// A peer has used up its 64-bit mutation counter.
    ExhaustedCounter,
}

} // verus!
