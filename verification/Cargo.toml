[package]
name = "pique"
version = "0.1.0"
edition = "2021"
publish = false

[dependencies]
crc32fast = "1"
fst = "0.4"
xorf = "*"
xxhash-rust = { version = "0.8", features = ["xxh3"] }
serde = { version = "1", features = ["derive"] }
serde_json = "1"
thiserror = "*"
async-trait = "0.1"
aws-config = { version = "1", default-features = false, features = ["behavior-version-latest"] }
aws-sdk-s3 = { version = "1", default-features = false }
