[package]
name = "maple"
version = "0.1.0"
edition = "2021"
publish = false

[dependencies]
anyhow = "1"
async-std = "1"
bytecount = "0.6"
crossbeam-channel = "0.5"
log = "0.4"
serde = { version = "1", features = ["derive"] }
serde_json = "1"
subprocess = "0.2"
tokio = { version = "1", features = ["process", "io-util", "time", "rt", "rt-multi-thread"] }
