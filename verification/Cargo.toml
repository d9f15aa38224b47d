[package]
name = "evm_selectors"
version = "0.1.0"
edition = "2021"
publish = false

[dependencies]
anyhow = "*"
ethers = { version = "*", default-features = false }
reqwest = { version = "*", default-features = false }
