[package]
name = "bevy_talks"
version = "0.1.0"
edition = "2021"
publish = false

[dependencies]
petgraph = "=0.8.3"
indexmap = "=2.14.2"
ron = "=0.12.3"
serde = { version = "=1.0.229", features = ["derive"] }
serde_json = "=1.0.154"
bevy = { version = "=0.17.3", default-features = false, features = ["std", "bevy_asset", "bevy_log"] }
