//! A content-addressed object store with a layered runtime and a
//! synchronization protocol between repositories.
//!
//! Every stored object is identified by the digest of its canonical binary
//! encoding.  Directory trees are captured as manifests of canonically
//! ordered entries, wrapped into layers and platforms, and named through an
//! append-only tag history.  A runtime composes a stack of these snapshots
//! into one environment and captures its edits back into new objects.

use vstd::prelude::*;

pub mod cli;
pub mod db;
pub mod encoding;
pub mod graph;
pub mod install_spec;
pub mod render;
pub mod runtime;
pub mod server;
pub mod spec_ops;
pub mod storage;
pub mod sync;
pub mod tag;
pub mod tracking;

verus! {

use crate::encoding::Digest;

/// The error taxonomy shared by every storage backend.
///
/// Expected, recoverable conditions (an absent object or tag) are kept
/// distinct from storage faults and from malformed data, so that callers can
/// react to a missing digest without treating it as corruption.
#[derive(Clone, Debug)]
pub enum Error {
    /// The requested digest is not present in the object database.
    UnknownObject(Digest),
    /// The named tag has no entry in the tag store.
    UnknownTag(String),
    /// The tag exists but holds no version that far back in its history.
    EmptyHistory(String),
    /// An underlying storage or transport operation failed.
    StorageFault(String),
    /// Stored or received bytes do not form a valid object encoding.
    EncodingError(String),
    /// A freeform error message.
    String(String),
}

pub type Result<T> = core::result::Result<T, Error>;

impl Error {
    /// True when this error reports an absent object rather than a fault.
    pub fn is_unknown_object(&self) -> (r: bool)
        ensures
            r == (self is UnknownObject),
    {
        match self {
            Error::UnknownObject(_) => true,
            _ => false,
        }
    }
}

impl From<String> for Error {
    fn from(err: String) -> (r: Error) {
        Error::String(err)
    }
}

impl vstd::std_specs::convert::FromSpecImpl<String> for Error {
    open spec fn obeys_from_spec() -> bool {
        true
    }

    open spec fn from_spec(err: String) -> Error {
        Error::String(err)
    }
}

} // verus!
