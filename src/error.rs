//! The failures that the service reports, and how they become responses.
use vstd::prelude::*;
use vstd::string::StringExecFns;
use crate::command::{CommandResponse, ResponseModel};
use crate::value::{Kvpair, Value};

verus! {

/// Every way in which an operation can fail.
#[derive(Debug, Clone, PartialEq)]
pub enum KvError {
    /// A key or a subscription is absent; the text says what.
    NotFound(String),
    /// The request was read but asks for nothing this service does.
    InvalidCommand(String),
    /// A frame is cut short or its header does not match its payload.
    FrameError,
    /// A payload does not hold a message.
    DecodeError(String),
    /// A storage backend failed.
    StorageError(String),
    /// A certificate or key (the first text names which) could not be read.
    CertificateParseError(String, String),
    /// Anything else.
    Internal(String),
}

/// The HTTP-style status code that a failure is reported with.
pub open spec fn error_status(e: KvError) -> u32 {
    match e {
        KvError::NotFound(_) => 404,
        KvError::InvalidCommand(_) => 400,
        _ => 500,
    }
}

/// The text that a failure is reported with.
pub open spec fn error_message(e: KvError) -> Seq<char> {
    match e {
        KvError::NotFound(w) => "Not found: "@ + w@,
        KvError::InvalidCommand(w) => "Invalid command: "@ + w@,
        KvError::FrameError => "Frame error"@,
        KvError::DecodeError(w) => "Decode error: "@ + w@,
        KvError::StorageError(w) => "Storage error: "@ + w@,
        KvError::CertificateParseError(role, kind) => "Certificate parse error: "@ + role@ + " "@
            + kind@,
        KvError::Internal(w) => "Internal error: "@ + w@,
    }
}

/// The response that reports a failure: its status and text, nothing else.
pub open spec fn error_response(e: KvError) -> ResponseModel {
    ResponseModel {
        status: error_status(e),
        message: error_message(e),
        values: Seq::empty(),
        pairs: Seq::empty(),
    }
}

impl KvError {
    pub fn status(&self) -> (r: u32)
        ensures
            r == error_status(*self),
    {
        match self {
            KvError::NotFound(_) => 404,
            KvError::InvalidCommand(_) => 400,
            _ => 500,
        }
    }

    /// The text of this failure, for people to read.
    pub fn message(&self) -> (r: String)
        ensures
            r@ == error_message(*self),
    {
        match self {
            KvError::NotFound(w) => String::from_str("Not found: ").concat(w.as_str()),
            KvError::InvalidCommand(w) => String::from_str("Invalid command: ").concat(w.as_str()),
            KvError::FrameError => String::from_str("Frame error"),
            KvError::DecodeError(w) => String::from_str("Decode error: ").concat(w.as_str()),
            KvError::StorageError(w) => String::from_str("Storage error: ").concat(w.as_str()),
            KvError::CertificateParseError(role, kind) => String::from_str(
                "Certificate parse error: ",
            ).concat(role.as_str()).concat(" ").concat(kind.as_str()),
            KvError::Internal(w) => String::from_str("Internal error: ").concat(w.as_str()),
        }
    }
}

impl CommandResponse {
    /// The response that reports `e`.
    pub fn from_error(e: &KvError) -> (r: CommandResponse)
        ensures
            r@ == error_response(*e),
    {
        let r = CommandResponse {
            status: e.status(),
            message: e.message(),
            values: Vec::<Value>::new(),
            pairs: Vec::<Kvpair>::new(),
        };
        assert(r@.values =~= Seq::empty());
        assert(r@.pairs =~= Seq::empty());
        r
    }
}

} // verus!
