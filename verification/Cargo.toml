[package]
name = "candle_vllm"
version = "0.1.0"
edition = "2021"
publish = false

[dependencies]
tokenizers = "*"
clap = { version = "*", features = ["derive"] }
serde = { version = "*", features = ["derive"] }
serde_json = "*"
dirs = "*"
either = "*"
thiserror = "*"
candle-core = "*"
candle-nn = "*"
