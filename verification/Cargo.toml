[package]
name = "chess_prep"
version = "0.1.0"
edition = "2021"
publish = false

[dependencies]
shakmaty = "0.29"
pgn-reader = "0.28"
serde = { version = "=1.0.229", features = ["derive"] }
toml = "=1.1.8"
clap = { version = "=4.6.7", features = ["derive"] }
reqwest = { version = "=0.12.28", default-features = false, features = ["blocking"] }
