[package]
name = "cn_input_encode"
version = "1.0.2"
edition = "2021"
publish = false

[dependencies]
rustc-hash = "2"
serde = { version = "1", features = ["derive"] }
toml = "0.8"
