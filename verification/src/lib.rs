//! Verified core of a static-content server that serves entries of an
//! immutable archive over one or more listening transports at once.
//!
//! The crate holds the transport-address grammar, the archive request
//! handling, the multi-listener accept policy and the shutdown coordination;
//! the surrounding process (sockets, signals, the HTTP wire) drives these
//! through plain values.

pub mod digits;
pub mod scan;
pub mod address;
pub mod serve;
pub mod acceptor;
pub mod shutdown;
