[package]
name = "vortexkey"
version = "0.1.0"
edition = "2021"
publish = false

[dependencies]
anyhow = "1"
chrono = "0.4"
clap = { version = "4", features = ["derive"] }
glob = "0.3"
image = { version = "0.25", default-features = false, features = ["png"] }
sha2 = "0.10"
