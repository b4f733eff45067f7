//! Verified core of a capability-based component runtime.
//!
//! The crate models the pure logic of a host runtime and its guest SDK:
//! linker assembly for capability hosts, per-event store contexts, guest
//! route and topic dispatch, the typestate request builder, the outbound
//! HTTP micro-cache with its content-addressed fingerprint, and the small
//! decoding helpers shared by the capability adapters.  Transport, sandbox
//! instantiation and other I/O stay outside; the functions here take and
//! return plain values and carry contracts for what they compute.

pub mod bytestr;
pub mod cache;
pub mod capabilities;
pub mod dispatch;
pub mod env;
pub mod errors;
pub mod fingerprint;
pub mod http;
pub mod link;
pub mod outbound;
pub mod request;
pub mod row;
pub mod traits;
