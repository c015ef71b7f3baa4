[package]
name = "orbitkeys"
version = "0.1.0"
edition = "2021"
publish = false

[dependencies]
anyhow = "*"
cosmic-protocols = "*"
serde = { version = "*", features = ["derive"] }
serde_json = "*"
tokio = { version = "*", features = ["sync"] }
wayland-client = "*"
wayland-protocols = { version = "*", features = ["client", "staging"] }
