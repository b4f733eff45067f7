//! The protocols the runtime's pieces plug together by: servers that
//! own a run loop, backends that connect from typed options, and the
//! binding of options from the environment.

use vstd::prelude::*;
use crate::errors::StartError;

verus! {

/// Implemented by capability hosts that own a blocking run loop
/// dispatching inbound events into instantiated guests.  The runtime
/// starts every server concurrently at program entry; a host that is
/// no server keeps the default, which returns at once.
pub trait Server<S> {
    fn run(&self, state: &S) -> Result<(), StartError> {
        let _ = state;
        Ok(())
    }
}

/// Implemented by backend resources: connect from typed options into
/// a ready handle.
pub trait Backend: Sized {
    type Options: FromEnv;

    fn connect_with(options: Self::Options) -> Result<Self, StartError>;

    /// Connect from the environment: bind the options, then connect
    /// with them; a binding failure is the connect's failure.
    fn connect(env: &Vec<(String, String)>) -> Result<Self, StartError> {
        match Self::Options::from_env(env) {
            Ok(options) => Self::connect_with(options),
            Err(e) => Err(e),
        }
    }
}

/// Build a typed options record from environment pairs.  Missing
/// required names fail with a `ConfigMissing` listing every one.
pub trait FromEnv: Sized {
    fn from_env(env: &Vec<(String, String)>) -> Result<Self, StartError>;
}

} // verus!
