[package]
name = "ipfox"
version = "0.1.0"
edition = "2021"
publish = false

[dependencies]
anyhow = "*"
bson = "*"
clap = { version = "*", features = ["derive"] }
console = "*"
futures = "*"
mongodb = "*"
serde = { version = "*", features = ["derive"] }
tokio = { version = "*", features = ["macros", "rt-multi-thread"] }
