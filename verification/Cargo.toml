[package]
name = "r2modmac"
version = "0.1.0"
edition = "2021"
publish = false

[dependencies]
base64 = "*"
dirs = "*"
flate2 = "*"
futures-util = "*"
open = "*"
regex = "*"
reqwest = { version = "*", default-features = false }
serde = { version = "*", features = ["derive"] }
serde_json = "*"
serde_yaml = "*"
tokio = { version = "*", features = ["rt-multi-thread", "macros"] }
walkdir = "*"
zip = { version = "*", default-features = false, features = ["deflate"] }
