[package]
name = "vmf_ledger"
version = "0.1.0"
edition = "2021"
publish = false

[dependencies]
indexmap = { version = "=2.14.2", features = ["serde"] }
serde = { version = "=1.0.229", features = ["derive"] }
serde_json = "=1.0.154"
source-vmf = { version = "=0.5.0", features = ["serialization"] }
vmf-forge = "=0.5.0"
thiserror = "=2.0.21"
