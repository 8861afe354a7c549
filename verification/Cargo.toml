[package]
name = "chunk_streaming"
version = "0.1.0"
edition = "2021"
publish = false

[dependencies]
anyhow = "1"
clap = { version = "4", features = ["derive"] }
rand_core = "0.6"
serde = { version = "1", features = ["derive"] }

[dev-dependencies]
glam = { version = "0.27", features = ["serde"] }
ron = "0.8"
