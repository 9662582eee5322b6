[package]
name = "versioning"
version = "0.1.0"
edition = "2021"
publish = false

[dependencies]
blake3 = { version = "1", default-features = false, features = ["pure"] }
hex = "0.4"
sha2 = "0.10"
thiserror = "2"
