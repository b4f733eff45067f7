//! The capability client traits: the narrow surface both the host
//! side and the guest side implement with identical semantics, and
//! the message record the publisher carries.

use vstd::prelude::*;
use crate::bytestr::slice_to_vec_u8;
use crate::errors::{CapError, ErrorCode};
use crate::http::{OutboundRequest, OutboundResponse};

verus! {

/// A message to publish: opaque payload bytes plus string headers.
#[derive(Debug, Clone)]
pub struct Message {
    pub payload: Vec<u8>,
    pub headers: Vec<(String, String)>,
}

impl Message {
    /// A message over the given payload, with no headers.
    pub fn new(payload: &[u8]) -> (m: Message)
        ensures
            m.payload@ == payload@,
            m.headers@.len() == 0,
    {
        Message { payload: slice_to_vec_u8(payload), headers: Vec::new() }
    }
}

/// Configuration lookup.  Fails if the key is unknown.
pub trait Config {
    fn get(&self, key: &String) -> Result<String, CapError>;
}

/// Outbound HTTP.  On the guest side the call goes through the
/// outbound cache; on the host side it goes to the client directly.
pub trait HttpRequest {
    fn fetch(&self, request: OutboundRequest) -> Result<OutboundResponse, ErrorCode>;
}

/// Message publishing to a topic.
pub trait Publisher {
    fn send(&self, topic: &String, message: &Message) -> Result<(), CapError>;
}

/// The key-value state store.  `set` takes an optional TTL in
/// seconds and returns the previous value, if any; `get` returns the
/// stored bytes, if any.
pub trait StateStore {
    fn get(&self, key: &String) -> Result<Option<Vec<u8>>, CapError>;

    fn set(&self, key: &String, value: &[u8], ttl_secs: Option<u64>) -> Result<
        Option<Vec<u8>>,
        CapError,
    >;

    fn delete(&self, key: &String) -> Result<(), CapError>;
}

/// Access-token acquisition for a named identity.  Fails on an
/// unknown identity or a failed acquisition.
pub trait Identity {
    fn access_token(&self, identity: String) -> Result<String, CapError>;
}

} // verus!
