[package]
name = "tsk"
version = "0.1.0"
edition = "2021"
publish = false

[dependencies]
chrono = "0.4"
clap = "2"
serde = "1"
serde_derive = "1"
serde_json = "1"
toml = "*"
uuid = { version = "1", features = ["v4"] }
