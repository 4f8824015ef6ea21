[package]
name = "object_log"
version = "0.2.0"
edition = "2021"
publish = false

[dependencies]
async-trait = "0.1"
aws-sdk-s3 = { version = "1", default-features = false, features = ["behavior-version-latest", "rt-tokio"] }
bytes = "1"
serde = { version = "1", features = ["derive"] }
serde_json = "1"
sha2 = "0.10"
thiserror = "2"
tokio = { version = "1", features = ["full"] }
