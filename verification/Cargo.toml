[package]
name = "world"
version = "0.1.0"
edition = "2021"
publish = false

[dependencies]
pathfinding = "4"
sha2 = "0.10"
serde = { version = "1", features = ["derive"] }
serde_json = "1"
jsonwebtoken = "9"
