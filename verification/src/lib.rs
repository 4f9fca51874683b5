//! Control core of a least-connections reverse-proxy load balancer.
//!
//! A coordinator owns a least-connections index over a pool of backends and
//! answers "which backend should serve the next request" queries from many
//! worker processes over a small fixed-size byte protocol. Workers buffer
//! client requests, pipeline assignment queries, correlate replies by an
//! echoed client identifier, and issue release or repair commands when a
//! backend finishes or turns out to be unreachable.

use vstd::prelude::*;

pub mod coordinator;
pub mod least_conn_server;
pub mod protocol;
pub mod worker;

verus! {

/// Error taxonomy of the balancer core.
#[derive(Clone, Copy, Debug, PartialEq, Eq, Structural)]
pub enum LbError {
    /// A backend key was registered twice.
    DuplicateBackend,
    /// An operation named a backend key that is not registered.
    UnknownBackend,
    /// An assignment was requested while the index was empty.
    NoBackendsAvailable,
    /// A message was too short, too long, or carried an unknown opcode.
    ProtocolFraming,
    /// A chosen backend could not be reached.
    BackendConnectFailure,
    /// The coordinator connection was lost.
    CoordinatorUnavailable,
}

} // verus!
