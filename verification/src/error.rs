//! The error taxonomy of the engine core. Every fallible operation returns
//! one of these; absence of an entity or a component is reported as `None`
//! rather than as an error.

use vstd::prelude::*;

verus! {

/// What went wrong, and for recoverable conditions, with which input.
#[derive(Debug)]
pub enum Error {
    /// A load was requested while the same slot was already loading; the
    /// caller may retry later.
    AssetBusy,
    /// The loader itself failed; the message it produced is kept.
    AssetLoad(String),
    /// A load finished but its slot was no longer in the loading state.
    LoadInterrupted,
    /// A child with this name already sits under the same parent.
    DuplicateChild(String),
    /// The entity handle does not name a live entity.
    NoSuchEntity,
    /// Only a detached leaf entity (no parent, no children, distinct from
    /// the new parent) may be attached; anything else could fold the tree
    /// into a cycle.
    InvalidChild,
}

impl Clone for Error {
    fn clone(&self) -> (r: Self)
        ensures
            r == *self,
    {
        match self {
            Error::AssetBusy => Error::AssetBusy,
            Error::AssetLoad(m) => Error::AssetLoad(m.clone()),
            Error::LoadInterrupted => Error::LoadInterrupted,
            Error::DuplicateChild(n) => Error::DuplicateChild(n.clone()),
            Error::NoSuchEntity => Error::NoSuchEntity,
            Error::InvalidChild => Error::InvalidChild,
        }
    }
}

} // verus!
