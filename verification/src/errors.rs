//! Error taxonomy of the subsystem and its mapping to HTTP status codes.

use vstd::prelude::*;

verus! {

/// Every way a request for a static asset can fail.
#[derive(Clone, Copy, Debug, PartialEq, Eq, Structural)]
pub enum HandlerError {
    /// The untrusted path attempts to escape the root, or contains a
    /// malformed percent escape, malformed UTF-8, or a null byte.
    PathTraversal,
    /// The selected file does not exist.
    ResourceNotFound,
    /// The selected file exists but may not be read.
    AccessDenied,
    /// Any other I/O failure while reading the selected file.
    IoFailure,
    /// A structurally invalid path segment that is not a traversal attempt.
    MalformedRequestPath,
}

/// The HTTP status codes a response descriptor can carry.
#[derive(Clone, Copy, Debug, PartialEq, Eq, Structural)]
pub enum Status {
    Okay,
    NotModified,
    BadRequest,
    Forbidden,
    NotFound,
    InternalServerError,
}

impl Status {
    /// The numeric HTTP status code.
    pub fn code(&self) -> (c: u16)
        ensures
            c == self.spec_code(),
    {
        match self {
            Status::Okay => 200,
            Status::NotModified => 304,
            Status::BadRequest => 400,
            Status::Forbidden => 403,
            Status::NotFound => 404,
            Status::InternalServerError => 500,
        }
    }

    pub open spec fn spec_code(self) -> u16 {
        match self {
            Status::Okay => 200,
            Status::NotModified => 304,
            Status::BadRequest => 400,
            Status::Forbidden => 403,
            Status::NotFound => 404,
            Status::InternalServerError => 500,
        }
    }
}

/// The status code each failure is surfaced as. Traversal attempts are
/// reported as plain not-found, never as forbidden, so a prober cannot
/// distinguish an out-of-root path from a missing file.
pub open spec fn spec_error_status(e: HandlerError) -> Status {
    match e {
        HandlerError::PathTraversal => Status::NotFound,
        HandlerError::ResourceNotFound => Status::NotFound,
        HandlerError::AccessDenied => Status::Forbidden,
        HandlerError::IoFailure => Status::InternalServerError,
        HandlerError::MalformedRequestPath => Status::BadRequest,
    }
}

/// Maps a failure to the status code of the response that reports it.
pub fn error_status(e: &HandlerError) -> (s: Status)
    ensures
        s == spec_error_status(*e),
{
    match e {
        HandlerError::PathTraversal => Status::NotFound,
        HandlerError::ResourceNotFound => Status::NotFound,
        HandlerError::AccessDenied => Status::Forbidden,
        HandlerError::IoFailure => Status::InternalServerError,
        HandlerError::MalformedRequestPath => Status::BadRequest,
    }
}

} // verus!
