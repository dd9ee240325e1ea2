//! Verified core of a cluster configuration filesystem: wire formats of the
//! cluster protocol, the in-memory configuration database, the cluster log
//! and the decision logic of the distributed state machine.

pub mod errno;
pub mod config;
pub mod wire;
pub mod clock;
pub mod digest;
pub mod api_types;
pub mod logger;
pub mod text;
pub mod memdb;
pub mod dfsm;
pub mod ipc;
