//! Error kinds of the runtime and their propagation rules.

use vstd::prelude::*;

verus! {

/// Transport-level failure of an outbound HTTP call, mirroring the
/// error vocabulary the host reports to guests.
#[derive(Debug, Clone, PartialEq, Eq)]
pub enum ErrorCode {
    ConnectionTimeout,
    ConnectionRefused,
    HttpRequestUriInvalid,
    InternalError(Option<String>),
}

/// Fatal start-up failure: missing configuration, a capability that
/// cannot be linked, or a backend that cannot connect.
#[derive(Debug, Clone, PartialEq, Eq)]
pub enum StartError {
    /// Required environment variables are absent; every missing name is
    /// reported.
    ConfigMissing(Vec<String>),
    /// A capability's imports cannot be bound; names the capability.
    LinkError(Vec<u8>),
    /// A backend's initial connect failed.
    BackendUnavailable(String),
}

/// Non-fatal dispatch failure, surfaced to the caller of one event.
#[derive(Debug, Clone, PartialEq, Eq)]
pub enum DispatchError {
    /// No route matched; names the attempted path.
    RouteMiss { path: Vec<u8> },
    /// No topic pattern matched; names the attempted topic.
    TopicMiss { topic: Vec<u8> },
    /// The input could not be decoded into the declared request type.
    DecodeError { message: Vec<u8> },
    /// The business handler returned an error.
    HandlerError { message: Vec<u8> },
}

/// Failure of a capability call (configuration, key-value, identity,
/// publishing).
#[derive(Debug, Clone, PartialEq, Eq)]
pub enum CapError {
    /// The requested item does not exist (unknown key, unknown identity).
    NotFound(String),
    /// The backend failed.
    Backend(String),
}

/// Map the shape of an upstream client failure onto the transport error
/// vocabulary: timeouts, refused connections and malformed request URIs
/// have codes of their own; everything else is an internal error
/// carrying the client's message.
pub fn classify_transport_error(
    is_timeout: bool,
    is_connect: bool,
    is_request: bool,
    message: String,
) -> (r: ErrorCode)
    ensures
        is_timeout ==> r == ErrorCode::ConnectionTimeout,
        !is_timeout && is_connect ==> r == ErrorCode::ConnectionRefused,
        !is_timeout && !is_connect && is_request ==> r == ErrorCode::HttpRequestUriInvalid,
        !is_timeout && !is_connect && !is_request ==> r == ErrorCode::InternalError(
            Some(message),
        ),
{
    if is_timeout {
        ErrorCode::ConnectionTimeout
    } else if is_connect {
        ErrorCode::ConnectionRefused
    } else if is_request {
        ErrorCode::HttpRequestUriInvalid
    } else {
        ErrorCode::InternalError(Some(message))
    }
}

} // verus!
