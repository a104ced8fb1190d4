[package]
name = "chess_ai"
version = "0.1.0"
edition = "2021"
publish = false

[dependencies]
colored = "2"
rand = "0.8"
serde = { version = "1", features = ["derive"] }
smallvec = "1"
