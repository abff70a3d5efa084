//! Dispatch core of a state-replication framework: marker-driven selection of
//! the functions that apply component updates, and the pipeline that carries
//! typed events from clients to the server.

pub mod network_event;
pub mod shared;
