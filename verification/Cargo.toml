[package]
name = "chat_relay"
version = "0.1.0"
edition = "2021"
publish = false

[dependencies]
tokio = { version = "=1.53.2", features = ["full"] }
tokio-websockets = { version = "=0.13.3", features = ["client", "server", "rand", "sha1_smol"] }
futures-util = { version = "=0.3.34", features = ["sink"] }
http = "=1.5.0"
rand = "=0.10.3"
