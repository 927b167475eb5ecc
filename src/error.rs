use vstd::prelude::*;
use vstd::string::StringExecFns;

verus! {

/// The tracker's closed error taxonomy.
#[derive(Debug)]
pub enum PensaError {
    NotFound(String),
    AlreadyClaimed { id: String, holder: String },
    CycleDetected,
    InvalidStatusTransition { from: String, to: String },
    DeleteRequiresForce(String),
    Internal(String),
}

/// The wire code of an error kind, where it has one.
pub open spec fn error_code(e: PensaError) -> Option<Seq<char>> {
    match e {
        PensaError::NotFound(_) => Some("not_found"@),
        PensaError::AlreadyClaimed { .. } => Some("already_claimed"@),
        PensaError::CycleDetected => Some("cycle_detected"@),
        PensaError::InvalidStatusTransition { .. } => Some("invalid_status_transition"@),
        PensaError::DeleteRequiresForce(_) => None,
        PensaError::Internal(_) => None,
    }
}

/// The human-readable text of an error.
pub open spec fn error_text(e: PensaError) -> Seq<char> {
    match e {
        PensaError::NotFound(id) => "issue not found: "@ + id@,
        PensaError::AlreadyClaimed { id, holder } => "issue "@ + id@ + " already claimed by "@
            + holder@,
        PensaError::CycleDetected => "adding this dependency would create a cycle"@,
        PensaError::InvalidStatusTransition { from, to } => "invalid status transition from "@
            + from@ + " to "@ + to@,
        PensaError::DeleteRequiresForce(reason) => "delete requires --force: "@ + reason@,
        PensaError::Internal(msg) => "internal error: "@ + msg@,
    }
}

/// The HTTP status that the service answers an error with.
pub open spec fn error_http_status(e: PensaError) -> u16 {
    match e {
        PensaError::NotFound(_) => 404,
        PensaError::Internal(_) => 500,
        _ => 409,
    }
}

impl PensaError {
    pub fn code(&self) -> (r: Option<&'static str>)
        ensures
            match r {
                Some(c) => error_code(*self) == Some(c@),
                None => error_code(*self) is None,
            },
    {
        match self {
            PensaError::NotFound(_) => Some("not_found"),
            PensaError::AlreadyClaimed { .. } => Some("already_claimed"),
            PensaError::CycleDetected => Some("cycle_detected"),
            PensaError::InvalidStatusTransition { .. } => Some("invalid_status_transition"),
            PensaError::DeleteRequiresForce(_) => None,
            PensaError::Internal(_) => None,
        }
    }

    /// The error's message, as the command line and the wire show it.
    pub fn message(&self) -> (r: String)
        ensures
            r@ == error_text(*self),
    {
        match self {
            PensaError::NotFound(id) => String::from_str("issue not found: ").concat(id.as_str()),
            PensaError::AlreadyClaimed { id, holder } => String::from_str("issue ").concat(
                id.as_str(),
            ).concat(" already claimed by ").concat(holder.as_str()),
            PensaError::CycleDetected => String::from_str(
                "adding this dependency would create a cycle",
            ),
            PensaError::InvalidStatusTransition { from, to } => String::from_str(
                "invalid status transition from ",
            ).concat(from.as_str()).concat(" to ").concat(to.as_str()),
            PensaError::DeleteRequiresForce(reason) => String::from_str(
                "delete requires --force: ",
            ).concat(reason.as_str()),
            PensaError::Internal(msg) => String::from_str("internal error: ").concat(msg.as_str()),
        }
    }

    /// The HTTP status code of this error kind.
    pub fn http_status(&self) -> (r: u16)
        ensures
            r == error_http_status(*self),
    {
        match self {
            PensaError::NotFound(_) => 404,
            PensaError::Internal(_) => 500,
            _ => 409,
        }
    }
}

/// The JSON error envelope: the message, and the code where the kind has one.
#[derive(Debug)]
pub struct ErrorResponse {
    pub error: String,
    pub code: Option<String>,
}

impl ErrorResponse {
    pub fn from_error(err: &PensaError) -> (r: ErrorResponse)
        ensures
            r.error@ == error_text(*err),
            match r.code {
                Some(c) => error_code(*err) == Some(c@),
                None => error_code(*err) is None,
            },
    {
        let code = match err.code() {
            Some(c) => Some(String::from_str(c)),
            None => None,
        };
        ErrorResponse { error: err.message(), code }
    }
}

} // verus!
