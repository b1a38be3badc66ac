[package]
name = "sigil_phone"
version = "0.1.0"
edition = "2021"
publish = false

[dependencies]
bs58 = "=0.5.1"
rand_core = { version = "0.6", features = ["getrandom"] }
serde = { version = "1", features = ["derive"] }
serde_json = "1"
thiserror = "2"
tracing = "0.1"
dirs = "6"
png = "0.17"
jni = "=0.21.1"
tokio = { version = "1", features = ["rt", "time", "macros"] }
