//! Marker registry, per-entity marker snapshots and command function dispatch.

use vstd::prelude::*;

pub mod command_markers;
pub mod replication_fns;
pub mod replication_registry;
pub mod update_order;

verus! {

/// Unique client ID.
///
/// Could be a client or a dual server-client.
#[derive(Clone, Copy, Debug, PartialEq, Eq, Hash, PartialOrd, Ord, Structural)]
pub struct ClientId(pub u64);

impl ClientId {
    /// The server's identity: the sender of events that the authority itself raised.
    pub open spec fn spec_server() -> ClientId {
        ClientId(0)
    }

    /// The server's identity: the sender of events that the authority itself raised.
    #[verifier::when_used_as_spec(spec_server)]
    pub fn server() -> (id: Self)
        ensures
            id == ClientId::spec_server(),
    {
        ClientId(0)
    }

    /// Creates a new ID wrapping the given value.
    pub fn new(value: u64) -> (id: Self)
        ensures
            id == ClientId(value),
    {
        ClientId(value)
    }

    /// Gets the value of this ID.
    pub fn get(&self) -> (value: u64)
        ensures
            value == self.0,
    {
        self.0
    }
}

} // verus!
