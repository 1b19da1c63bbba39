[package]
name = "proglog"
version = "0.1.0"
edition = "2021"
publish = false

[dependencies]
axum = "0.6"
memmap2 = "*"
serde = { version = "1", features = ["derive"] }
serde_with = { version = "3", features = ["base64"] }
tokio = { version = "1", features = ["rt-multi-thread", "macros", "net"] }
