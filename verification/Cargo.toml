[package]
name = "grin-cuckatoo-miner"
version = "0.1.0"
edition = "2021"
publish = false

[dependencies]
anyhow = "1"
blake2 = "0.10"
bytemuck = { version = "1", features = ["derive"] }
clap = { version = "4", features = ["derive"] }
hex = "0.4"
objc2 = "*"
objc2-foundation = "*"
objc2-metal = "*"
pollster = "*"
serde = { version = "1", features = ["derive"] }
serde_json = "1"
thiserror = "2"
tokio = { version = "1", features = ["full"] }
wgpu = "*"
