//! The ways in which the adaptor fails.

use crate::text::owned;
use vstd::prelude::*;

verus! {

/// What went wrong in reading or writing a byte stream.
#[derive(Clone, Copy, Debug, PartialEq, Eq, Structural)]
pub enum IoErrorKind {
    /// The stream ended inside a value.
    UnexpectedEof,
    /// Anything else; the message says what.
    Other,
}

/// A failure to read or write, with the message it is reported by.
#[derive(Debug, PartialEq, Eq)]
pub struct IoError {
    pub kind: IoErrorKind,
    pub message: String,
}

/// One rule that a catalog breaks.
#[derive(Clone, Copy, Debug, PartialEq, Eq, Structural)]
pub enum ValidationCode {
    /// A list that has to hold something is empty.
    Length,
    /// A stream is to be read in a mode that it does not support.
    SyncModeNotSupported,
    /// A key range begins after its end.
    RangeOrder,
}

/// A broken rule and the stream it was found at, counted from zero; none
/// where the rule is broken by the catalog as a whole.
#[derive(Clone, Copy, Debug, PartialEq, Eq, Structural)]
pub struct ValidationError {
    pub stream: Option<usize>,
    pub code: ValidationCode,
}

/// A failure of the adaptor.
#[derive(Debug, PartialEq, Eq)]
pub enum Error {
    CommandExecutionError(String),
    MissingIOPipe,
    IOError(IoError),
    JsonError(String),
    CheckpointPending,
    EmptyStream,
    MessageNotFound(String),
    ConnectionStatusUnsuccessful(String),
    MissingValidateRequest,
    DanglingConnectorRecord(String),
    InvalidPullResponse,
    InvalidCatalog(Vec<ValidationError>),
    InvalidSchema(String),
    InvalidMapping(String),
    InvalidPKPatch(String),
    UnknownOperation(String),
    IdleConnector,
    ParseIntError,
    /// The connector ended with this status, which the adaptor ends with too.
    ExitCode(i32),
}

/// A failure of kind `Other` that is reported by `message`.
pub fn create_custom_error(message: &str) -> (r: IoError)
    ensures
        r.kind == IoErrorKind::Other,
        r.message@ == message@,
{
    IoError { kind: IoErrorKind::Other, message: owned(message) }
}

/// The failure that `create_custom_error` makes of `message`, as a result.
pub fn raise_err<T>(message: &str) -> (r: Result<T, IoError>)
    ensures
        r is Err,
        r->Err_0.kind == IoErrorKind::Other,
        r->Err_0.message@ == message@,
{
    Err(create_custom_error(message))
}

/// `prefix` followed by `detail`.
pub fn describe(prefix: &str, detail: &str) -> (r: String)
    ensures
        r@ == prefix@ + detail@,
{
    owned(prefix).concat(detail)
}

impl Error {
    /// The words by which the failure is reported.
    pub fn message(&self) -> (r: String)
        ensures
            r@ == error_message(*self),
    {
        match self {
            Error::CommandExecutionError(m) => describe("Failed to execute command: ", m.as_str()),
            Error::MissingIOPipe => owned("Unable to create an IO pipe to the connector"),
            Error::IOError(e) => e.message.clone(),
            Error::JsonError(m) => m.clone(),
            Error::CheckpointPending => owned(
                "ATF Connector's pending checkpoint was not committed, this can happen if the connector exits abruptly",
            ),
            Error::EmptyStream => owned(
                "Stream is empty, expected to find a message but could not find any",
            ),
            Error::MessageNotFound(m) => describe(
                "Could not find expected message in stream: ",
                m.as_str(),
            ),
            Error::ConnectionStatusUnsuccessful(m) => m.clone(),
            Error::MissingValidateRequest => owned("Validation request is missing"),
            Error::DanglingConnectorRecord(m) => describe(
                "Connector output a Record that does not belong to any known stream: ",
                m.as_str(),
            ),
            Error::InvalidPullResponse => owned("Invalid PullResponse received from connector"),
            Error::InvalidCatalog(_) => owned("Invalid connector catalog"),
            Error::InvalidSchema(m) => describe("Adapting ATF schema to Flow: ", m.as_str()),
            Error::InvalidMapping(m) => describe("Adapting ATF schema to Flow: ", m.as_str()),
            Error::InvalidPKPatch(m) => describe("Invalid primary key patch file: ", m.as_str()),
            Error::UnknownOperation(m) => describe("Unknown operation: ", m.as_str()),
            Error::IdleConnector => owned("Connector has been idle"),
            Error::ParseIntError => owned("Could not parse run interval"),
            Error::ExitCode(_) => owned("Connector exited with a failure status"),
        }
    }
}

/// The words by which each failure is reported.
pub open spec fn error_message(e: Error) -> Seq<char> {
    match e {
        Error::CommandExecutionError(m) => "Failed to execute command: "@ + m@,
        Error::MissingIOPipe => "Unable to create an IO pipe to the connector"@,
        Error::IOError(e) => e.message@,
        Error::JsonError(m) => m@,
        Error::CheckpointPending =>
            "ATF Connector's pending checkpoint was not committed, this can happen if the connector exits abruptly"@,
        Error::EmptyStream => "Stream is empty, expected to find a message but could not find any"@,
        Error::MessageNotFound(m) => "Could not find expected message in stream: "@ + m@,
        Error::ConnectionStatusUnsuccessful(m) => m@,
        Error::MissingValidateRequest => "Validation request is missing"@,
        Error::DanglingConnectorRecord(m) =>
            "Connector output a Record that does not belong to any known stream: "@ + m@,
        Error::InvalidPullResponse => "Invalid PullResponse received from connector"@,
        Error::InvalidCatalog(_) => "Invalid connector catalog"@,
        Error::InvalidSchema(m) => "Adapting ATF schema to Flow: "@ + m@,
        Error::InvalidMapping(m) => "Adapting ATF schema to Flow: "@ + m@,
        Error::InvalidPKPatch(m) => "Invalid primary key patch file: "@ + m@,
        Error::UnknownOperation(m) => "Unknown operation: "@ + m@,
        Error::IdleConnector => "Connector has been idle"@,
        Error::ParseIntError => "Could not parse run interval"@,
        Error::ExitCode(_) => "Connector exited with a failure status"@,
    }
}

} // verus!
