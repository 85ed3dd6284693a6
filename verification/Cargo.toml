[package]
name = "dungeon"
version = "0.1.0"
edition = "2021"

[dependencies]
rand = "0.8"
pathfinding = "4"
petgraph = "0.6"
noise = { version = "0.7", default-features = false }
gif = "0.11"
serde = { version = "1", features = ["derive"] }
serde_json = "1"
