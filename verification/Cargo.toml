[package]
name = "glassdb_storage"
version = "0.1.0"
edition = "2021"
publish = false

[dependencies]
async-trait = "0.1"
base64 = "0.22"
hashlink = "0.10"
prost = { version = "0.13", default-features = false, features = ["std"] }
rustix = { version = "1", features = ["fs"] }
sha2 = "0.10"
thiserror = "2"
tokio = { version = "1", features = ["rt", "sync", "time", "macros"] }
tracing = "0.1"
