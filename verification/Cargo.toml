[package]
name = "light_sync"
version = "0.1.0"
edition = "2021"
publish = false

[dependencies]
base64 = "*"
flate2 = "*"
sha3 = "*"
reqwest = { version = "*", default-features = false, features = ["json"] }
tokio = { version = "*", default-features = false, features = ["rt-multi-thread", "macros", "sync"] }
clap = { version = "*", features = ["derive"] }
serde = { version = "*", features = ["derive"] }
serde_json = "*"
eyre = "*"
dotenv = "*"
tempfile = "*"
tracing = "*"
aws-config = "*"
aws-sdk-s3 = "*"
