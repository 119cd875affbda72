[package]
name = "bifrostlink"
version = "0.1.0"
edition = "2021"
publish = false

[dependencies]
uuid = { version = "1", features = ["v4"] }
serde = { version = "1", features = ["derive"] }
serde_json = "1"
serde_path_to_error = "0.1"
serde_with = "3"
tokio = { version = "1", features = ["full"] }
futures = "0.3"
sha2 = "0.10"
base64 = "0.22"
thiserror = "2"
url = "2"
hidapi = "2"
