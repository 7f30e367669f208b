[package]
name = "terra_core"
version = "0.1.0"
edition = "2021"
publish = false

[dependencies]
rand = "0.8"
bracket-pathfinding = "0.8"
bracket-terminal = { version = "0.8", default-features = false, features = ["cross_term"] }
serde = { version = "1", features = ["derive"] }
serde_json = "1"
toml = "0.8"
