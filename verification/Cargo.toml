[package]
name = "camau"
version = "0.1.0"
edition = "2021"
publish = false

[dependencies]
clap = { version = "4", features = ["derive"] }
indexmap = "2"
pyo3 = { version = "*", features = ["abi3-py311"] }
rand = "*"
rand_chacha = "*"
serde = "1"
serde_json = { version = "1", features = ["preserve_order"] }
thiserror = "2"
