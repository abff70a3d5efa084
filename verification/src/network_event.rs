//! Events that travel between clients and the server.

pub mod client_event;
