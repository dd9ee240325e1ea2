//! Distributed finite state machine: protocol messages and state decisions.

pub mod types;
pub mod message;
pub mod wire_format;
pub mod fuse_message;
pub mod kv_store_message;
pub mod dfsm_message;
pub mod state_machine;
pub mod count_keys;
