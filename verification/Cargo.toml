[package]
name = "turnbased_game_server"
version = "0.1.0"
edition = "2021"
publish = false

[dependencies]
rand = "*"
serde = { version = "*", features = ["derive"] }
serde_json = "*"
clap = { version = "*", features = ["derive"] }
tokio = { version = "*", features = ["rt-multi-thread", "net", "io-std", "io-util", "macros"] }
tokio-tungstenite = "*"
tokio-util = { version = "*", features = ["codec"] }
futures-channel = "*"
futures-util = "*"
itertools = "*"
