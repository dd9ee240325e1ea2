//! IPC with local clients: the wire structures of the connection handshake and of
//! requests, the decisions taken while accepting a connection and queueing its
//! requests, the arithmetic of the shared-memory ring buffers, and server statistics.

pub mod protocol;
pub mod connection;
pub mod shm;
pub mod server;
