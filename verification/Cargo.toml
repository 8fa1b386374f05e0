[package]
name = "auditor"
version = "0.1.0"
edition = "2021"
publish = false

[dependencies]
lcs = "*"
levenshtein = "*"
tlsh-fixed = "*"
clap = "2"
serde = { version = "*", features = ["derive"] }
serde_json = "*"
toml = "*"
parity-wasm = "*"
soroban-spec = "*"
soroban-sdk = "*"
