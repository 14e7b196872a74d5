[package]
name = "myllm_proxy"
version = "0.1.0"
edition = "2021"
publish = false

[dependencies]
serde_json = "1"
sha2 = "0.10"
netstat2 = "*"
libproc = "*"
serde = { version = "1", features = ["derive"] }
thiserror = "*"
tokio = { version = "1", features = ["full"] }
axum = "*"
reqwest = { version = "*", default-features = false, features = ["json", "stream", "cookies"] }
futures-util = "*"
tokio-stream = "*"
