[package]
name = "secret_contracts"
version = "0.1.0"
edition = "2021"
publish = false

[dependencies]
cogset = "*"
rusty-machine = "*"
serde = { version = "*", features = ["derive"] }
serde_json = "*"
eng-wasm = "*"
eng-wasm-derive = "*"
