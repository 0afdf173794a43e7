use vstd::prelude::*;
use vstd::string::StringExecFns;

use crate::types::Video;

verus! {

/// Reason sent with an `InvalidSession` message before the coordinator closes a session.
#[derive(PartialEq, Eq, Structural, Clone, Copy, Debug)]
pub enum ErrorCode {
    UnknownError,
    UnexpectedOP,
    DecodeError,
    AuthenticationFailed,
    UnsupportedClientVersion,
    NotAuthenticated,
    NotExpectingResults,
    WrongResultString,
    SessionTimeout,
}

/// Short description sent with each error code.
pub open spec fn description_of(code: ErrorCode) -> Seq<char> {
    match code {
        ErrorCode::UnknownError => "Unknown error"@,
        ErrorCode::UnexpectedOP => "Unexpected OP code"@,
        ErrorCode::DecodeError => "Decode error"@,
        ErrorCode::AuthenticationFailed => "Authentication failed"@,
        ErrorCode::UnsupportedClientVersion => "Unsupported client version"@,
        ErrorCode::NotAuthenticated => "Not authenticated"@,
        ErrorCode::NotExpectingResults => "Not expecting results"@,
        ErrorCode::WrongResultString => "Wrong result string"@,
        ErrorCode::SessionTimeout => "Session timeout"@,
    }
}

/// Explanation sent with each error code.
pub open spec fn explanation_of(code: ErrorCode) -> Seq<char> {
    match code {
        ErrorCode::UnknownError => "We're not sure what went wrong."@,
        ErrorCode::UnexpectedOP => "The server received an OP code it should not."@,
        ErrorCode::DecodeError => "The server received an invalid payload."@,
        ErrorCode::AuthenticationFailed => "The server received an invalid passphrase."@,
        ErrorCode::UnsupportedClientVersion =>
            "The server received a client version it doesn't support. Try updating your client from https://github.com/skifli/bruty/releases."@,
        ErrorCode::NotAuthenticated => "You need to authenticate first."@,
        ErrorCode::NotExpectingResults => "You didn't request a test."@,
        ErrorCode::WrongResultString => "Your results don't start from the ID we are expecting."@,
        ErrorCode::SessionTimeout => "You didn't send a heartbeat in time."@,
    }
}

impl ErrorCode {
    /// The `InvalidSession` payload data for this error code.
    pub fn populate(&self) -> (r: InvalidSessionData)
        ensures
            r.code == *self,
            r.description@ == description_of(*self),
            r.explanation@ == explanation_of(*self),
    {
        let (description, explanation) = match self {
            ErrorCode::UnknownError => ("Unknown error", "We're not sure what went wrong."),
            ErrorCode::UnexpectedOP => (
                "Unexpected OP code",
                "The server received an OP code it should not.",
            ),
            ErrorCode::DecodeError => ("Decode error", "The server received an invalid payload."),
            ErrorCode::AuthenticationFailed => (
                "Authentication failed",
                "The server received an invalid passphrase.",
            ),
            ErrorCode::UnsupportedClientVersion => (
                "Unsupported client version",
                "The server received a client version it doesn't support. Try updating your client from https://github.com/skifli/bruty/releases.",
            ),
            ErrorCode::NotAuthenticated => ("Not authenticated", "You need to authenticate first."),
            ErrorCode::NotExpectingResults => ("Not expecting results", "You didn't request a test."),
            ErrorCode::WrongResultString => (
                "Wrong result string",
                "Your results don't start from the ID we are expecting.",
            ),
            ErrorCode::SessionTimeout => ("Session timeout", "You didn't send a heartbeat in time."),
        };
        InvalidSessionData {
            code: *self,
            description: String::from_str(description),
            explanation: String::from_str(explanation),
        }
    }
}

/// Kind of a message on the wire.
#[derive(PartialEq, Eq, Structural, Clone, Copy, Debug)]
pub enum OperationCode {
    /// Worker to coordinator: the worker is alive.
    Heartbeat,
    /// Worker to coordinator: starts a session.
    Identify,
    /// Coordinator to worker: a base prefix to test.
    TestRequestData,
    /// Worker to coordinator: the results for a base prefix.
    TestingResult,
    /// Coordinator to worker: the session is over.
    InvalidSession,
}

/// Data sent with an `Identify` message.
#[derive(Debug)]
pub struct IdentifyData {
    pub client_version: String,
    pub id: u8,
    pub secret: String,
}

/// Data sent with a `TestRequestData` message.
#[derive(Debug)]
pub struct TestRequestData {
    pub id: Vec<char>,
}

/// Data sent with a `TestingResult` message.
#[derive(Debug)]
pub struct TestingResultData {
    pub id: Vec<char>,
    pub positives: Vec<Video>,
}

/// Data sent with an `InvalidSession` message.
#[derive(Debug)]
pub struct InvalidSessionData {
    pub code: ErrorCode,
    pub description: String,
    pub explanation: String,
}

/// Payload data of a message.
#[derive(Debug)]
pub enum Data {
    Heartbeat,
    Identify(IdentifyData),
    TestRequestData(TestRequestData),
    TestingResult(TestingResultData),
    InvalidSession(InvalidSessionData),
}

/// A message on the wire.
#[derive(Debug)]
pub struct Payload {
    pub op_code: OperationCode,
    pub data: Data,
}

} // verus!
