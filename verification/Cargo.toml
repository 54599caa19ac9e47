[package]
name = "evm_tools"
version = "0.1.0"
edition = "2021"
publish = false

[dependencies]
paired = "*"
fff = "*"
groupy = "*"
num-bigint = "*"
regex = "1"
serde = { version = "1", features = ["derive"] }
serde_json = "1"
anyhow = "1"
clap = "2"
rustc-hex = "2"
tokio = { version = "1", features = ["time", "macros", "rt-multi-thread"] }
reqwest = { version = "0.11", features = ["json"] }
psutil = "3"
web3 = "0.10"
