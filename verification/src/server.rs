//! The remote service adapter: answers repository requests over a
//! request/response protocol, each request independent.
//!
//! Internal error kinds translate to wire status codes and back without
//! collapsing the taxonomy, so a remote caller sees the same error shapes
//! as a local one.

use vstd::prelude::*;

verus! {

use crate::storage::RepositoryHandle;
use crate::encoding::{Digest, digest_from_hex, hex_of_bytes, enc_digest};
use crate::tag::{under_path, ls_post};
use crate::Error;

/// A health-check request.
pub struct PingRequest {}

/// The (empty) health-check answer.
pub struct PingResponse {}

/// Asks for the tags under a path.
pub struct LsTagsRequest {
    pub path: String,
}

/// The tag names under the requested path.
pub struct LsTagsResponse {
    pub entries: Vec<String>,
}

pub const STATUS_OK: u32 = 0;

pub const STATUS_UNKNOWN_OBJECT: u32 = 1;

pub const STATUS_UNKNOWN_TAG: u32 = 2;

pub const STATUS_EMPTY_HISTORY: u32 = 3;

pub const STATUS_STORAGE_FAULT: u32 = 4;

pub const STATUS_ENCODING_ERROR: u32 = 5;

pub const STATUS_OTHER: u32 = 6;

/// The detail text a wire error carries: the digest's hexadecimal form
/// for an absent object, the name or message otherwise.
pub open spec fn detail_of(e: Error) -> Seq<char> {
    match e {
        Error::UnknownObject(d) => hex_of_bytes(enc_digest(d)),
        Error::UnknownTag(s) => s@,
        Error::EmptyHistory(s) => s@,
        Error::StorageFault(s) => s@,
        Error::EncodingError(s) => s@,
        Error::String(s) => s@,
    }
}

/// Renders the detail text of an error for the wire.
pub fn error_detail(e: &Error) -> (r: String)
    ensures
        r@ == detail_of(*e),
{
    match e {
        Error::UnknownObject(d) => d.to_hex(),
        Error::UnknownTag(s) => s.clone(),
        Error::EmptyHistory(s) => s.clone(),
        Error::StorageFault(s) => s.clone(),
        Error::EncodingError(s) => s.clone(),
        Error::String(s) => s.clone(),
    }
}

/// The wire status code of an error kind.
pub open spec fn status_of(e: Error) -> u32 {
    match e {
        Error::UnknownObject(_) => STATUS_UNKNOWN_OBJECT,
        Error::UnknownTag(_) => STATUS_UNKNOWN_TAG,
        Error::EmptyHistory(_) => STATUS_EMPTY_HISTORY,
        Error::StorageFault(_) => STATUS_STORAGE_FAULT,
        Error::EncodingError(_) => STATUS_ENCODING_ERROR,
        Error::String(_) => STATUS_OTHER,
    }
}

/// Translates an error to its wire status code.
pub fn error_to_status(e: &Error) -> (r: u32)
    ensures
        r == status_of(*e),
{
    match e {
        Error::UnknownObject(_) => STATUS_UNKNOWN_OBJECT,
        Error::UnknownTag(_) => STATUS_UNKNOWN_TAG,
        Error::EmptyHistory(_) => STATUS_EMPTY_HISTORY,
        Error::StorageFault(_) => STATUS_STORAGE_FAULT,
        Error::EncodingError(_) => STATUS_ENCODING_ERROR,
        Error::String(_) => STATUS_OTHER,
    }
}

/// Translates a wire status code back to an error carrying `detail`: the
/// kind is the status's, and the detail is carried through — for an absent
/// object, the digest itself is read back from its hexadecimal form.
pub fn status_to_error(status: u32, detail: String) -> (r: crate::Result<Error>)
    ensures
        match r {
            Ok(e) => {
                &&& status_of(e) == status
                &&& ((status == STATUS_UNKNOWN_OBJECT && digest_from_hex(detail@) is Some)
                    ==> e == Error::UnknownObject(digest_from_hex(detail@)->0))
                &&& (status != STATUS_UNKNOWN_OBJECT ==> detail_of(e) == detail@)
            },
            Err(_) => status == STATUS_OK || status > STATUS_OTHER,
        },
{
    if status == STATUS_UNKNOWN_OBJECT {
        match Digest::from_hex(detail.as_str()) {
            Some(d) => Ok(Error::UnknownObject(d)),
            None => Ok(Error::UnknownObject(crate::encoding::null_digest())),
        }
    } else if status == STATUS_UNKNOWN_TAG {
        Ok(Error::UnknownTag(detail))
    } else if status == STATUS_EMPTY_HISTORY {
        Ok(Error::EmptyHistory(detail))
    } else if status == STATUS_STORAGE_FAULT {
        Ok(Error::StorageFault(detail))
    } else if status == STATUS_ENCODING_ERROR {
        Ok(Error::EncodingError(detail))
    } else if status == STATUS_OTHER {
        Ok(Error::String(detail))
    } else {
        Err(Error::String(detail))
    }
}

/// Crossing the wire loses nothing: translating an error to its status
/// and detail and reading both back yields an error of the same kind, and
/// for an absent object the very same digest.
pub proof fn lemma_wire_round_trip(e: Error, e2: Error)
    requires
        status_of(e2) == status_of(e),
        (status_of(e) == STATUS_UNKNOWN_OBJECT && digest_from_hex(detail_of(e)) is Some)
            ==> e2 == Error::UnknownObject(digest_from_hex(detail_of(e))->0),
    ensures
        e is UnknownObject ==> e2 == e,
{
    match e {
        Error::UnknownObject(d) => {
            crate::encoding::lemma_digest_hex_round_trip(d);
        },
        _ => {},
    }
}

/// A network-facing adapter wrapping one repository handle.
pub struct Service {
    pub repo: RepositoryHandle,
}

impl Service {
    /// Builds the service around the given repository.
    pub fn new_srv(repo: RepositoryHandle) -> (r: Service)
        ensures
            r.repo == repo,
    {
        Service { repo }
    }

    /// Answers a health check; always succeeds with an empty response.
    pub fn ping(&self, _request: PingRequest) -> (r: PingResponse)
    {
        PingResponse {  }
    }

    /// Lists every tag under the requested path.  The in-memory store
    /// cannot fault, so the answer is always a response, never a status.
    pub fn ls_tags(&self, request: LsTagsRequest) -> (r: LsTagsResponse)
        requires
            self.repo.wf(),
        ensures
            ls_post(self.repo.tag_contents(), request.path@, r.entries@),
    {
        let entries = match &self.repo {
            RepositoryHandle::FS(repo) => repo.tags.ls_tags(request.path.as_str()),
            RepositoryHandle::Pinned(p) => p.base.tags.ls_tags(request.path.as_str()),
        };
        LsTagsResponse { entries }
    }
}

} // verus!
