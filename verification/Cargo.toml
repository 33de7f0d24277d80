[package]
name = "zkvm_memory"
version = "0.1.0"
edition = "2021"
publish = false

[dependencies]
risc0-zkp = "0.15"
risc0-zkvm-platform = "0.15"
rrs-lib = "0.1"
anyhow = "1"
log = "0.4"
serde = { version = "1", features = ["derive"] }
