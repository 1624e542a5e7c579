[package]
name = "aivpn"
version = "0.1.0"
edition = "2021"
publish = false

[dependencies]
dashmap = "5.5"
ed25519-dalek = "2.1"
hex = "0.4"
jni = "0.21"
libc = "0.2"
log = "0.4"
rand = "0.8"
serde = { version = "1.0", features = ["derive"] }
serde_bytes = "0.11"
serde_json = "1.0"
tokio = { version = "1", features = ["macros", "net", "rt-multi-thread", "sync", "time"] }
tracing = "0.1"
