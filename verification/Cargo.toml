[package]
name = "pmxcfs"
version = "0.1.0"
edition = "2021"
publish = false

[dependencies]
sha2 = "0.10"
serde = { version = "1", features = ["derive"] }
serde_json = "1"
bincode = "1"
rusqlite = { version = "*", features = ["bundled"] }
libc = "0.2"
parking_lot = "0.12"
tokio = { version = "1", features = ["full"] }
tokio-util = "0.7"
async-trait = "0.1"
memmap2 = "0.9"
thiserror = "*"
tracing = "0.1"
anyhow = "1"
rust-corosync = "*"
num_enum = "*"
bytemuck = { version = "1", features = ["derive"] }
